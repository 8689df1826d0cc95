use vstd::prelude::*;

verus! {

/// How urgent a task is. A task without a priority ranks below `Low`.
#[derive(Clone, Copy, Debug, PartialEq, Eq, Structural)]
pub enum Priority {
    Low,
    Medium,
    High,
}

/// The position of a priority on the ladder `None < Low < Medium < High`.
pub open spec fn rank(p: Option<Priority>) -> nat {
    match p {
        None => 0,
        Some(Priority::Low) => 1,
        Some(Priority::Medium) => 2,
        Some(Priority::High) => 3,
    }
}

/// One step up the ladder, saturating at `High`.
pub open spec fn raised(p: Option<Priority>) -> Option<Priority> {
    match p {
        None => Some(Priority::Low),
        Some(Priority::Low) => Some(Priority::Medium),
        Some(Priority::Medium) => Some(Priority::High),
        Some(Priority::High) => Some(Priority::High),
    }
}

/// One step down the ladder, saturating at no priority.
pub open spec fn lowered(p: Option<Priority>) -> Option<Priority> {
    match p {
        None => None,
        Some(Priority::Low) => None,
        Some(Priority::Medium) => Some(Priority::Low),
        Some(Priority::High) => Some(Priority::Medium),
    }
}

/// The priority one step above `p`; `High` stays `High`.
pub fn increase(p: Option<Priority>) -> (r: Option<Priority>)
    ensures
        r == raised(p),
{
    match p {
        None => Some(Priority::Low),
        Some(Priority::Low) => Some(Priority::Medium),
        Some(Priority::Medium) => Some(Priority::High),
        Some(Priority::High) => Some(Priority::High),
    }
}

/// The priority one step below `p`; no priority stays no priority.
pub fn decrease(p: Option<Priority>) -> (r: Option<Priority>)
    ensures
        r == lowered(p),
{
    match p {
        None => None,
        Some(Priority::Low) => None,
        Some(Priority::Medium) => Some(Priority::Low),
        Some(Priority::High) => Some(Priority::Medium),
    }
}

/// Three raises take no priority to `High`, and `High` is a fixed point;
/// three lowerings take `High` to no priority, and no priority is a fixed point.
pub proof fn lemma_priority_ladder_saturates()
    ensures
        raised(None) != Some(Priority::High),
        raised(raised(None)) != Some(Priority::High),
        raised(raised(raised(None))) == Some(Priority::High),
        raised(Some(Priority::High)) == Some(Priority::High),
        lowered(Some(Priority::High)) != None::<Priority>,
        lowered(lowered(Some(Priority::High))) != None::<Priority>,
        lowered(lowered(lowered(Some(Priority::High)))) == None::<Priority>,
        lowered(None) == None::<Priority>,
{
}

/// The abstract value of a task and everything below it.
pub struct Task {
    pub text: Seq<char>,
    pub complete: bool,
    pub priority: Option<Priority>,
    pub children: Seq<Task>,
}

/// A task with the given text, not complete, without priority or children.
pub open spec fn fresh(text: Seq<char>) -> Task {
    Task { text, complete: false, priority: None, children: Seq::empty() }
}

/// A node of the task tree. It owns its sub-tasks, in display order.
pub struct ToDo {
    pub task: String,
    pub complete: bool,
    pub priority: Option<Priority>,
    pub sub_tasks: Vec<ToDo>,
}

impl ToDo {
    /// The abstract value of this node: its fields and, in order, the values of
    /// its sub-tasks.
    pub open spec fn model(&self) -> Task
        decreases self,
    {
        Task {
            text: self.task@,
            complete: self.complete,
            priority: self.priority,
            children: Seq::new(
                self.sub_tasks.len() as nat,
                |i: int|
                    if 0 <= i < self.sub_tasks.len() {
                        self.sub_tasks[i].model()
                    } else {
                        arbitrary()
                    },
            ),
        }
    }
}

impl View for ToDo {
    type V = Task;

    open spec fn view(&self) -> Task {
        self.model()
    }
}

/// Holds of the tasks whose priority has rank `r`.
pub open spec fn has_rank(r: nat) -> spec_fn(ToDo) -> bool {
    |t: ToDo| rank(t.priority) == r
}

/// Holds of the tasks whose priority does not have rank `r`.
pub open spec fn lacks_rank(r: nat) -> spec_fn(ToDo) -> bool {
    |t: ToDo| rank(t.priority) != r
}

/// The values of a sequence of nodes.
pub open spec fn models(v: Seq<ToDo>) -> Seq<Task> {
    Seq::new(v.len(), |i: int| v[i].model())
}

/// A node's children are the values of its sub-tasks.
pub(crate) proof fn lemma_model_children(t: ToDo)
    ensures
        t.model().children == models(t.sub_tasks@),
{
    assert(t.model().children =~= models(t.sub_tasks@));
}

/// The sub-tasks with priority `High`, then `Medium`, then `Low`, then none,
/// each group in its original relative order.
pub open spec fn prioritized(s: Seq<ToDo>) -> Seq<ToDo> {
    s.filter(has_rank(3)) + s.filter(has_rank(2)) + s.filter(has_rank(1)) + s.filter(has_rank(0))
}

/// Holds of the task values whose priority has rank `r`.
pub open spec fn task_has_rank(r: nat) -> spec_fn(Task) -> bool {
    |t: Task| rank(t.priority) == r
}

/// Task values with priority `High`, then `Medium`, then `Low`, then none,
/// each group in its original relative order.
pub open spec fn by_priority(s: Seq<Task>) -> Seq<Task> {
    s.filter(task_has_rank(3)) + s.filter(task_has_rank(2)) + s.filter(task_has_rank(1)) + s.filter(
        task_has_rank(0),
    )
}

proof fn lemma_models_filter(v: Seq<ToDo>, r: nat)
    ensures
        models(v.filter(has_rank(r))) == models(v).filter(task_has_rank(r)),
    decreases v.len(),
{
    reveal(Seq::filter);
    if v.len() == 0 {
        assert(models(v.filter(has_rank(r))) =~= models(v).filter(task_has_rank(r)));
    } else {
        lemma_models_filter(v.drop_last(), r);
        assert(models(v).drop_last() =~= models(v.drop_last()));
        assert(models(v).last() == v.last().model());
        let f = v.drop_last().filter(has_rank(r));
        assert(models(f.push(v.last())) =~= models(f).push(v.last().model()));
    }
}

proof fn lemma_rank_filters_len(s: Seq<ToDo>)
    ensures
        s.filter(has_rank(3)).len() + s.filter(has_rank(2)).len() + s.filter(has_rank(1)).len()
            + s.filter(has_rank(0)).len() == s.len(),
    decreases s.len(),
{
    reveal(Seq::filter);
    if s.len() > 0 {
        lemma_rank_filters_len(s.drop_last());
    }
}

/// Filtering what a wider filter kept is filtering the whole.
proof fn lemma_filter_narrows(s: Seq<ToDo>, wide: spec_fn(ToDo) -> bool, narrow: spec_fn(ToDo) -> bool)
    requires
        forall|t: ToDo| #[trigger] narrow(t) ==> wide(t),
    ensures
        s.filter(wide).filter(narrow) == s.filter(narrow),
    decreases s.len(),
{
    reveal(Seq::filter);
    if s.len() > 0 {
        let x = s.last();
        lemma_filter_narrows(s.drop_last(), wide, narrow);
        if wide(x) {
            let w = s.drop_last().filter(wide).push(x);
            assert(w.drop_last() =~= s.drop_last().filter(wide));
            assert(w.last() == x);
        }
    }
}

/// Filtering one more element of a prefix.
proof fn lemma_filter_step(s: Seq<ToDo>, k: int, p: spec_fn(ToDo) -> bool)
    requires
        0 <= k < s.len(),
    ensures
        s.take(k + 1).filter(p) == (if p(s[k]) {
            s.take(k).filter(p).push(s[k])
        } else {
            s.take(k).filter(p)
        }),
{
    reveal(Seq::filter);
    assert(s.take(k + 1).drop_last() =~= s.take(k));
    assert(s.take(k + 1).last() == s[k]);
}

impl ToDo {
    /// A new task with the given text: not complete, no priority, no sub-tasks.
    pub fn new(task: &str) -> (r: ToDo)
        ensures
            r@ == fresh(task@),
    {
        let r = ToDo { task: task.to_owned(), complete: false, priority: None, sub_tasks: Vec::new() };
        assert(r@.children =~= Seq::<Task>::empty());
        r
    }

    /// A new tree with the same value as the one rooted here.
    pub fn duplicate(&self) -> (r: ToDo)
        ensures
            r@ == self@,
        decreases self,
    {
        let mut subs: Vec<ToDo> = Vec::new();
        let mut i: usize = 0;
        while i < self.sub_tasks.len()
            invariant
                i <= self.sub_tasks.len(),
                subs.len() == i,
                forall|j: int| 0 <= j < i ==> #[trigger] subs@[j]@ == self.sub_tasks@[j]@,
            decreases self.sub_tasks.len() - i,
        {
            let c = self.sub_tasks[i].duplicate();
            subs.push(c);
            i += 1;
        }
        let r = ToDo {
            task: self.task.clone(),
            complete: self.complete,
            priority: self.priority,
            sub_tasks: subs,
        };
        assert forall|j: int| 0 <= j < r.sub_tasks.len() implies r@.children[j] == self@.children[j] by {
            assert(subs@[j]@ == self.sub_tasks@[j]@);
        }
        assert(r@.children =~= self@.children);
        r
    }

    /// Moves the sub-tasks of the given rank, in order, from `rest` to the end of
    /// `out`; `rest` keeps the others, in order.
    fn take_rank(rest: &mut Vec<ToDo>, out: &mut Vec<ToDo>, r: u8)
        ensures
            final(out)@ == old(out)@ + old(rest)@.filter(has_rank(r as nat)),
            final(rest)@ == old(rest)@.filter(lacks_rank(r as nat)),
    {
        let ghost s = old(rest)@;
        let ghost pick = has_rank(r as nat);
        let ghost keep_pred = lacks_rank(r as nat);
        let mut keep: Vec<ToDo> = Vec::new();
        let mut k: usize = 0;
        let n = rest.len();
        while rest.len() > 0
            invariant
                k <= n,
                n == s.len(),
                pick == has_rank(r as nat),
                keep_pred == lacks_rank(r as nat),
                rest@ == s.skip(k as int),
                out@ == old(out)@ + s.take(k as int).filter(pick),
                keep@ == s.take(k as int).filter(keep_pred),
            decreases rest.len(),
        {
            let t = rest.remove(0);
            proof {
                lemma_filter_step(s, k as int, pick);
                lemma_filter_step(s, k as int, keep_pred);
                assert(rest@ =~= s.skip(k + 1));
            }
            let tr: u8 = match t.priority {
                None => 0,
                Some(Priority::Low) => 1,
                Some(Priority::Medium) => 2,
                Some(Priority::High) => 3,
            };
            proof {
                assert(t == s[k as int]);
                assert(tr as nat == rank(t.priority));
            }
            if tr == r {
                out.push(t);
                assert(out@ =~= old(out)@ + s.take(k + 1).filter(pick));
            } else {
                keep.push(t);
            }
            k += 1;
        }
        assert(s.take(n as int) =~= s);
        *rest = keep;
    }

    /// Reorders the direct sub-tasks by descending priority, stably: `High`
    /// first, then `Medium`, then `Low`, then those without priority, each
    /// group in its previous relative order.
    pub fn sort_by_priority(&mut self)
        ensures
            final(self).sub_tasks@ == prioritized(old(self).sub_tasks@),
            final(self).sub_tasks.len() == old(self).sub_tasks.len(),
            final(self).model() == (Task {
                children: by_priority(old(self).model().children),
                ..old(self).model()
            }),
            final(self).task == old(self).task,
            final(self).complete == old(self).complete,
            final(self).priority == old(self).priority,
    {
        let ghost s = self.sub_tasks@;
        proof {
            lemma_model_children(*self);
        }
        let mut rest: Vec<ToDo> = Vec::new();
        std::mem::swap(&mut rest, &mut self.sub_tasks);
        let mut out: Vec<ToDo> = Vec::new();
        Self::take_rank(&mut rest, &mut out, 3);
        Self::take_rank(&mut rest, &mut out, 2);
        Self::take_rank(&mut rest, &mut out, 1);
        Self::take_rank(&mut rest, &mut out, 0);
        proof {
            let p3 = lacks_rank(3);
            let p2 = lacks_rank(2);
            let p1 = lacks_rank(1);
            let a2 = has_rank(2);
            let a1 = has_rank(1);
            let a0 = has_rank(0);
            lemma_filter_narrows(s, p3, a2);
            lemma_filter_narrows(s.filter(p3), p2, a1);
            lemma_filter_narrows(s, p3, a1);
            lemma_filter_narrows(s.filter(p3).filter(p2), p1, a0);
            lemma_filter_narrows(s.filter(p3), p2, a0);
            lemma_filter_narrows(s, p3, a0);
            lemma_models_filter(s, 3);
            lemma_models_filter(s, 2);
            lemma_models_filter(s, 1);
            lemma_models_filter(s, 0);
            lemma_rank_filters_len(s);
        }
        self.sub_tasks = out;
        proof {
            lemma_model_children(*self);
            let ms = models(s);
            assert(models(prioritized(s)) =~= by_priority(ms));
        }
    }
}

} // verus!
