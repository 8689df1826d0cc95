use vstd::prelude::*;
use crate::text::{chars_of, string_of};
use crate::todo::{lemma_model_children, models, Priority, Task, ToDo};

verus! {

/// One line of a save file, as data: how deep the task sits below the
/// serialization root, and the task's own fields (no children).
pub struct Entry {
    pub depth: nat,
    pub task: Task,
}

/// A task's own fields, without its children.
pub open spec fn leaf(t: Task) -> Task {
    Task { children: Seq::empty(), ..t }
}

/// The tasks of a forest in depth-first pre-order, each with its depth; the
/// top-level tasks are at depth `d`.
pub open spec fn flatten(s: Seq<Task>, d: nat) -> Seq<Entry>
    decreases s,
{
    if s.len() == 0 {
        Seq::empty()
    } else {
        seq![Entry { depth: d, task: leaf(s[0]) }] + flatten(s[0].children, d + 1) + flatten(
            s.drop_first(),
            d,
        )
    }
}

/// `n` space characters.
pub open spec fn spaces(n: nat) -> Seq<char> {
    Seq::new(n, |i: int| ' ')
}

/// The marker letter of a priority: `A` for high, `B` medium, `C` low, blank for none.
pub open spec fn priority_letter(p: Option<Priority>) -> char {
    match p {
        Some(Priority::High) => 'A',
        Some(Priority::Medium) => 'B',
        Some(Priority::Low) => 'C',
        None => ' ',
    }
}

/// The eight-character marker section: `[X] ` or `[ ] `, then `(A) `, `(B) `,
/// `(C) ` or `( ) `.
pub open spec fn marker(t: Task) -> Seq<char> {
    seq!['[', if t.complete { 'X' } else { ' ' }, ']', ' ', '(', priority_letter(t.priority), ')', ' ']
}

/// A line of the save file without its newline: four spaces per level of
/// depth, the marker section, then the text.
pub open spec fn line_of(e: Entry) -> Seq<char> {
    spaces(4 * e.depth) + marker(e.task) + e.task.text
}

/// Lines, each followed by a newline.
pub open spec fn render(es: Seq<Entry>) -> Seq<char>
    decreases es.len(),
{
    if es.len() == 0 {
        Seq::empty()
    } else {
        line_of(es[0]) + seq!['\n'] + render(es.drop_first())
    }
}

/// The save-file text of a tree: every task below the root, in pre-order; the
/// root itself has no line.
pub open spec fn encode(root: Task) -> Seq<char> {
    render(flatten(root.children, 0))
}

proof fn lemma_render_append(a: Seq<Entry>, b: Seq<Entry>)
    ensures
        render(a + b) == render(a) + render(b),
    decreases a.len(),
{
    if a.len() == 0 {
        assert(a + b =~= b);
    } else {
        assert((a + b).drop_first() =~= a.drop_first() + b);
        lemma_render_append(a.drop_first(), b);
        assert(render(a + b) =~= render(a) + render(b));
    }
}

proof fn lemma_flatten_append(a: Seq<Task>, b: Seq<Task>, d: nat)
    ensures
        flatten(a + b, d) == flatten(a, d) + flatten(b, d),
    decreases a.len(),
{
    if a.len() == 0 {
        assert(a + b =~= b);
    } else {
        assert((a + b).drop_first() =~= a.drop_first() + b);
        assert((a + b)[0] == a[0]);
        lemma_flatten_append(a.drop_first(), b, d);
        assert(flatten(a + b, d) =~= flatten(a, d) + flatten(b, d));
    }
}

/// Appends `v` to `out`.
pub(crate) fn push_all(out: &mut Vec<char>, v: &Vec<char>)
    ensures
        final(out)@ == old(out)@ + v@,
{
    let mut i: usize = 0;
    while i < v.len()
        invariant
            i <= v.len(),
            out@ == old(out)@ + v@.take(i as int),
        decreases v.len() - i,
    {
        out.push(v[i]);
        i += 1;
        assert(out@ =~= old(out)@ + v@.take(i as int));
    }
    assert(v@.take(i as int) =~= v@);
}

/// Appends the marker section of a task.
fn push_marker(out: &mut Vec<char>, t: &ToDo)
    ensures
        final(out)@ == old(out)@ + marker(t.model()),
{
    out.push('[');
    out.push(if t.complete { 'X' } else { ' ' });
    out.push(']');
    out.push(' ');
    out.push('(');
    let letter = match t.priority {
        Some(Priority::High) => 'A',
        Some(Priority::Medium) => 'B',
        Some(Priority::Low) => 'C',
        None => ' ',
    };
    out.push(letter);
    out.push(')');
    out.push(' ');
    assert(out@ =~= old(out)@ + marker(t.model()));
}

/// Appends the lines of `tasks` and of everything below them, the top level
/// indented by `indent`.
fn write_tasks(tasks: &Vec<ToDo>, indent: &Vec<char>, Ghost(d): Ghost<nat>, out: &mut Vec<char>)
    requires
        indent@ == spaces(4 * d),
    ensures
        final(out)@ == old(out)@ + render(flatten(models(tasks@), d)),
    decreases tasks,
{
    let mut deeper: Vec<char> = Vec::new();
    push_all(&mut deeper, indent);
    deeper.push(' ');
    deeper.push(' ');
    deeper.push(' ');
    deeper.push(' ');
    assert(deeper@ =~= spaces(4 * (d + 1)));
    let mut i: usize = 0;
    while i < tasks.len()
        invariant
            i <= tasks.len(),
            indent@ == spaces(4 * d),
            deeper@ == spaces(4 * (d + 1)),
            out@ == old(out)@ + render(flatten(models(tasks@).take(i as int), d)),
        decreases tasks.len() - i,
    {
        let t = &tasks[i];
        let ghost before = out@;
        let ghost m = t.model();
        push_all(out, indent);
        push_marker(out, t);
        let text = chars_of(t.task.as_str());
        push_all(out, &text);
        out.push('\n');
        let ghost e = Entry { depth: d, task: leaf(m) };
        assert(out@ =~= before + render(seq![e])) by {
            assert(seq![e].drop_first() =~= Seq::<Entry>::empty());
            assert(render(Seq::<Entry>::empty()) == Seq::<char>::empty());
            assert(seq![e][0] == e);
            assert(render(seq![e]) =~= line_of(e) + seq!['\n']);
            assert(line_of(e) =~= spaces(4 * d) + marker(m) + m.text);
        }
        write_tasks(&t.sub_tasks, &deeper, Ghost(d + 1), out);
        proof {
            lemma_model_children(*t);
            let s = models(tasks@);
            assert(s[i as int] == m);
            assert(s.take(i + 1) =~= s.take(i as int) + seq![m]);
            lemma_flatten_append(s.take(i as int), seq![m], d);
            assert(seq![m].drop_first() =~= Seq::<Task>::empty());
            assert(seq![m][0] == m);
            assert(flatten(Seq::<Task>::empty(), d) == Seq::<Entry>::empty());
            assert(flatten(seq![m], d) =~= seq![e] + flatten(m.children, d + 1));
            lemma_render_append(seq![e], flatten(m.children, d + 1));
            lemma_render_append(flatten(s.take(i as int), d), flatten(seq![m], d));
        }
        i += 1;
        assert(out@ =~= old(out)@ + render(flatten(models(tasks@).take(i as int), d)));
    }
    assert(models(tasks@).take(i as int) =~= models(tasks@));
}

/// How many characters at the start of `s` satisfy `p`.
pub open spec fn leading(s: Seq<char>, p: spec_fn(char) -> bool) -> nat
    decreases s.len(),
{
    if s.len() > 0 && p(s[0]) {
        1 + leading(s.drop_first(), p)
    } else {
        0
    }
}

/// Holds of every character but the newline.
pub open spec fn not_newline() -> spec_fn(char) -> bool {
    |c: char| c != '\n'
}

/// Holds of the space character.
pub open spec fn is_space() -> spec_fn(char) -> bool {
    |c: char| c == ' '
}

/// The characters with the Unicode `White_Space` property.
pub open spec fn white_space(c: char) -> bool {
    let v = c as u32;
    (0x9 <= v <= 0xD) || v == 0x20 || v == 0x85 || v == 0xA0 || v == 0x1680 || (0x2000 <= v
        <= 0x200A) || v == 0x2028 || v == 0x2029 || v == 0x202F || v == 0x205F || v == 0x3000
}

/// Holds of the characters with the Unicode `White_Space` property.
pub open spec fn is_white() -> spec_fn(char) -> bool {
    |c: char| white_space(c)
}

/// The lines of a text as `str::lines` gives them: split at each newline, a
/// carriage return right before the newline dropped, and no empty last line
/// after a final newline.
pub open spec fn split_lines(s: Seq<char>) -> Seq<Seq<char>>
    decreases s.len(),
{
    if s.len() == 0 {
        Seq::empty()
    } else {
        let k = leading(s, not_newline());
        if k < s.len() {
            let raw = s.take(k as int);
            let line = if k > 0 && raw.last() == '\r' {
                raw.drop_last()
            } else {
                raw
            };
            seq![line] + split_lines(s.skip(k as int + 1))
        } else {
            seq![s]
        }
    }
}

/// The priority that a marker letter stands for.
pub open spec fn priority_of(c: char) -> Option<Priority> {
    if c == 'A' {
        Some(Priority::High)
    } else if c == 'B' {
        Some(Priority::Medium)
    } else if c == 'C' {
        Some(Priority::Low)
    } else {
        None
    }
}

/// The task that a line stripped of its indentation describes: completion
/// from its second character, priority from its sixth, text from its ninth
/// on. A line shorter than the marker section gives an empty, unmarked task.
pub open spec fn record(s: Seq<char>) -> Task {
    if s.len() < 8 {
        Task { text: Seq::empty(), complete: false, priority: None, children: Seq::empty() }
    } else {
        Task {
            text: s.skip(8),
            complete: s[1] == 'X',
            priority: priority_of(s[5]),
            children: Seq::empty(),
        }
    }
}

/// A line drops its leading white space.
pub open spec fn trim_start(s: Seq<char>) -> Seq<char> {
    s.skip(leading(s, is_white()) as int)
}

/// What one line of a save file says: its depth is its leading spaces divided
/// by four, rounded down.
pub open spec fn entry_of(line: Seq<char>) -> Entry {
    Entry { depth: leading(line, is_space()) / 4, task: record(trim_start(line)) }
}

/// The entries of the lines of a text.
pub open spec fn entries_of(text: Seq<char>) -> Seq<Entry> {
    split_lines(text).map_values(|l: Seq<char>| entry_of(l))
}

/// Adds `x` as the last child of the node at depth `d` on the path of last
/// children from `t` (depth 0 is `t` itself).
pub open spec fn insert_at(t: Task, d: nat, x: Task) -> Task
    decreases d,
{
    if d == 0 || t.children.len() == 0 {
        Task { children: t.children.push(x), ..t }
    } else {
        let n = t.children.len() - 1;
        Task { children: t.children.update(n, insert_at(t.children[n], (d - 1) as nat, x)), ..t }
    }
}

/// The tree that adding the entries in order, each under the last task one
/// level up, makes from `r`.
pub open spec fn grow(r: Task, es: Seq<Entry>) -> Task
    decreases es.len(),
{
    if es.len() == 0 {
        r
    } else {
        insert_at(grow(r, es.drop_last()), es.last().depth, es.last().task)
    }
}

/// How many levels the path of last children goes down from `t`.
pub open spec fn spine(t: Task) -> nat
    decreases t,
{
    if t.children.len() == 0 {
        0
    } else {
        1 + spine(t.children.last())
    }
}

/// Entry `i` cannot be placed: the first entry is not at depth 0, or a later
/// one is more than one level deeper than the entry before it.
pub open spec fn misplaced(es: Seq<Entry>, i: int) -> bool {
    if i == 0 {
        es[0].depth != 0
    } else {
        es[i].depth > es[i - 1].depth + 1
    }
}

/// Every entry can be placed.
pub open spec fn well_nested(es: Seq<Entry>) -> bool {
    forall|i: int| 0 <= i < es.len() ==> !#[trigger] misplaced(es, i)
}

/// The root that a load starts from: no text, not complete, no priority, no
/// children.
pub open spec fn empty_root() -> Task {
    Task { text: Seq::empty(), complete: false, priority: None, children: Seq::empty() }
}

/// The tree that a save file describes.
pub open spec fn decode(text: Seq<char>) -> Task {
    grow(empty_root(), entries_of(text))
}

/// A save file that cannot be read: the line with this index (from 0) is
/// indented more than one level deeper than the line before it, or is the
/// first line and is indented at all.
#[derive(Clone, Copy, Debug, PartialEq, Eq, Structural)]
pub struct MalformedSave {
    pub line: usize,
}

proof fn lemma_leading(s: Seq<char>, p: spec_fn(char) -> bool, k: int)
    requires
        0 <= k <= s.len(),
        forall|j: int| 0 <= j < k ==> p(#[trigger] s[j]),
        k == s.len() || !p(s[k]),
    ensures
        leading(s, p) == k,
    decreases k,
{
    if k > 0 {
        lemma_leading(s.drop_first(), p, k - 1);
    }
}

/// The end of the maximal run from `from` (below `to`) of characters that
/// satisfy the test; `want_space` picks spaces, else white space.
pub(crate) fn run_end(chars: &Vec<char>, from: usize, to: usize, want_space: bool) -> (r: usize)
    requires
        from <= to <= chars.len(),
    ensures
        from <= r <= to,
        want_space ==> r - from == leading(chars@.subrange(from as int, to as int), is_space()),
        !want_space ==> r - from == leading(chars@.subrange(from as int, to as int), is_white()),
{
    let ghost p = if want_space { is_space() } else { is_white() };
    let mut i = from;
    while i < to && fits(chars[i], want_space)
        invariant
            from <= i <= to,
            to <= chars.len(),
            p == (if want_space { is_space() } else { is_white() }),
            forall|j: int| from <= j < i ==> p(#[trigger] chars@[j]),
        decreases to - i,
    {
        i += 1;
    }
    proof {
        let s = chars@.subrange(from as int, to as int);
        assert forall|j: int| 0 <= j < i - from implies p(#[trigger] s[j]) by {
            assert(s[j] == chars@[from + j]);
        }
        lemma_leading(s, p, i - from);
    }
    i
}

/// Whether `c` is a space (`want_space`) or white space (otherwise).
fn fits(c: char, want_space: bool) -> (r: bool)
    ensures
        r == (if want_space { is_space()(c) } else { is_white()(c) }),
{
    if want_space {
        c == ' '
    } else {
        is_white_space(c)
    }
}

/// Whether `c` has the Unicode `White_Space` property.
fn is_white_space(c: char) -> (r: bool)
    ensures
        r == white_space(c),
{
    let v = c as u32;
    (0x9 <= v && v <= 0xD) || v == 0x20 || v == 0x85 || v == 0xA0 || v == 0x1680 || (0x2000 <= v
        && v <= 0x200A) || v == 0x2028 || v == 0x2029 || v == 0x202F || v == 0x205F || v == 0x3000
}

/// The end of the line that starts at `pos`: the index of the next newline, or
/// the length when there is none.
fn line_end(chars: &Vec<char>, pos: usize) -> (r: usize)
    requires
        pos <= chars.len(),
    ensures
        pos <= r <= chars.len(),
        r - pos == leading(chars@.skip(pos as int), not_newline()),
        r < chars.len() ==> chars@[r as int] == '\n',
{
    let mut i = pos;
    while i < chars.len() && chars[i] != '\n'
        invariant
            pos <= i <= chars.len(),
            forall|j: int| pos <= j < i ==> chars@[j] != '\n',
        decreases chars.len() - i,
    {
        i += 1;
    }
    proof {
        let s = chars@.skip(pos as int);
        assert forall|j: int| 0 <= j < i - pos implies not_newline()(#[trigger] s[j]) by {
            assert(s[j] == chars@[pos + j]);
        }
        lemma_leading(s, not_newline(), i - pos);
    }
    i
}

/// The task that the characters `from..to` describe, as `record` says.
pub(crate) fn parse_record(chars: &Vec<char>, from: usize, to: usize) -> (r: ToDo)
    requires
        from <= to <= chars.len(),
    ensures
        r.model() == record(chars@.subrange(from as int, to as int)),
{
    let ghost s = chars@.subrange(from as int, to as int);
    if to - from < 8 {
        let r = ToDo { task: String::new(), complete: false, priority: None, sub_tasks: Vec::new() };
        assert(r.model().children =~= Seq::<Task>::empty());
        assert(r.model().text =~= Seq::<char>::empty());
        r
    } else {
        let complete = chars[from + 1] == 'X';
        let letter = chars[from + 5];
        let priority = if letter == 'A' {
            Some(Priority::High)
        } else if letter == 'B' {
            Some(Priority::Medium)
        } else if letter == 'C' {
            Some(Priority::Low)
        } else {
            None
        };
        let mut text: Vec<char> = Vec::new();
        let mut i = from + 8;
        while i < to
            invariant
                from + 8 <= i <= to,
                to <= chars.len(),
                text@ == chars@.subrange(from + 8, i as int),
            decreases to - i,
        {
            text.push(chars[i]);
            i += 1;
            assert(text@ =~= chars@.subrange(from + 8, i as int));
        }
        let r = ToDo { task: string_of(&text), complete, priority, sub_tasks: Vec::new() };
        assert(r.model().children =~= Seq::<Task>::empty());
        assert(s.skip(8) =~= text@);
        assert(s[1] == chars@[from + 1]);
        assert(s[5] == chars@[from + 5]);
        r
    }
}

proof fn lemma_insert_at_spine(t: Task, d: nat, x: Task)
    requires
        d <= spine(t),
        x.children.len() == 0,
    ensures
        spine(insert_at(t, d, x)) == d + 1,
    decreases d,
{
    let r = insert_at(t, d, x);
    if d == 0 || t.children.len() == 0 {
        assert(spine(x) == 0);
        assert(r.children.last() == x);
    } else {
        let n = t.children.len() - 1;
        lemma_insert_at_spine(t.children[n], (d - 1) as nat, x);
        assert(r.children.last() == insert_at(t.children[n], (d - 1) as nat, x));
    }
}

/// Adds `x` under the node at depth `d` on the path of last children.
fn insert_at_depth(node: &mut ToDo, d: usize, x: ToDo)
    requires
        d <= spine(old(node).model()),
    ensures
        final(node).model() == insert_at(old(node).model(), d as nat, x.model()),
    decreases d,
{
    let ghost m = node.model();
    proof {
        lemma_model_children(*node);
    }
    if d == 0 {
        node.sub_tasks.push(x);
        proof {
            lemma_model_children(*node);
            assert(node.model().children =~= m.children.push(x.model()));
        }
    } else {
        match node.sub_tasks.pop() {
            Some(mut last) => {
                insert_at_depth(&mut last, d - 1, x);
                node.sub_tasks.push(last);
                proof {
                    lemma_model_children(*node);
                    let n = m.children.len() - 1;
                    assert(node.model().children =~= m.children.update(
                        n,
                        insert_at(m.children[n], (d - 1) as nat, x.model()),
                    ));
                }
            },
            None => {},
        }
    }
}

proof fn lemma_next_line(c: Seq<char>, pos: int, end: int, stop: int, next: int)
    requires
        0 <= pos < c.len(),
        pos <= end <= c.len(),
        end - pos == leading(c.skip(pos), not_newline()),
        stop == (if end < c.len() && end > pos && c[end - 1] == '\r' {
            end - 1
        } else {
            end
        }),
        next == (if end < c.len() {
            end + 1
        } else {
            c.len() as int
        }),
    ensures
        split_lines(c.skip(pos)) == seq![c.subrange(pos, stop)] + split_lines(c.skip(next)),
{
    let rest = c.skip(pos);
    lemma_split_step(rest, (end - pos) as nat);
    if end < c.len() {
        if end > pos && c[end - 1] == '\r' {
            assert(rest[end - pos - 1] == c[end - 1]);
            assert(rest.take(end - pos - 1) =~= c.subrange(pos, stop));
        } else {
            assert(end > pos ==> rest[end - pos - 1] == c[end - 1]);
            assert(rest.take(end - pos) =~= c.subrange(pos, stop));
        }
        assert(rest.skip(end - pos + 1) =~= c.skip(next));
    } else {
        assert(rest =~= c.subrange(pos, stop));
        assert(c.skip(next) =~= Seq::<char>::empty());
        assert(split_lines(c.skip(next)) =~= Seq::<Seq<char>>::empty());
        assert(seq![rest] =~= seq![rest] + Seq::<Seq<char>>::empty());
    }
}

proof fn lemma_split_step(s: Seq<char>, k: nat)
    requires
        s.len() > 0,
        k == leading(s, not_newline()),
    ensures
        k <= s.len(),
        k < s.len() ==> split_lines(s) == seq![
            if k > 0 && s[k - 1] == '\r' {
                s.take(k - 1)
            } else {
                s.take(k as int)
            },
        ] + split_lines(s.skip(k as int + 1)),
        k == s.len() ==> split_lines(s) == seq![s],
{
    lemma_leading_bound(s, not_newline());
    if k < s.len() {
        let raw = s.take(k as int);
        if k > 0 && raw.last() == '\r' {
            assert(raw.drop_last() =~= s.take(k - 1));
        }
    }
}

proof fn lemma_leading_bound(s: Seq<char>, p: spec_fn(char) -> bool)
    ensures
        leading(s, p) <= s.len(),
        leading(s, p) < s.len() ==> !p(s[leading(s, p) as int]),
        forall|j: int| 0 <= j < leading(s, p) ==> p(#[trigger] s[j]),
    decreases s.len(),
{
    if s.len() > 0 && p(s[0]) {
        lemma_leading_bound(s.drop_first(), p);
        assert forall|j: int| 0 <= j < leading(s, p) implies p(#[trigger] s[j]) by {
            if j > 0 {
                assert(s[j] == s.drop_first()[j - 1]);
            }
        }
    }
}

/// The depth that a line's indentation gives: its leading spaces divided by
/// four, rounded down.
pub fn tab_num(line: &str) -> (r: usize)
    ensures
        r == leading(line@, is_space()) / 4,
{
    let chars = chars_of(line);
    let end = run_end(&chars, 0, chars.len(), true);
    assert(chars@.subrange(0, chars@.len() as int) =~= line@);
    end / 4
}

impl ToDo {
    /// Reads a save file into a tree whose root has no text, completion or
    /// priority. Fails, naming the first offending line, when a line is
    /// indented more than one level deeper than the line before it, or the
    /// first line is indented at all.
    #[verifier::rlimit(60)]
    pub fn load(text: &str) -> (r: Result<ToDo, MalformedSave>)
        ensures
            match r {
                Ok(t) => well_nested(entries_of(text@)) && t.model() == decode(text@),
                Err(e) => {
                    &&& e.line < entries_of(text@).len()
                    &&& misplaced(entries_of(text@), e.line as int)
                    &&& forall|i: int| 0 <= i < e.line ==> !misplaced(entries_of(text@), i)
                },
            },
    {
        let chars = chars_of(text);
        let n = chars.len();
        let ghost lines = split_lines(chars@);
        let ghost es = entries_of(chars@);
        let mut root = ToDo { task: String::new(), complete: false, priority: None, sub_tasks: Vec::new() };
        proof {
            assert(root.model().children =~= Seq::<Task>::empty());
            assert(root.model().text =~= Seq::<char>::empty());
            assert(es.take(0) =~= Seq::<Entry>::empty());
            assert(chars@.skip(0) =~= chars@);
            assert(lines.skip(0) =~= lines);
        }
        let mut pos: usize = 0;
        let mut count: usize = 0;
        let mut prev: usize = 0;
        while pos < n
            invariant
                n == chars.len(),
                chars@ == text@,
                lines == split_lines(chars@),
                es == entries_of(chars@),
                pos <= n,
                count <= pos,
                count <= lines.len(),
                split_lines(chars@.skip(pos as int)) == lines.skip(count as int),
                root.model() == grow(empty_root(), es.take(count as int)),
                forall|i: int| 0 <= i < count ==> !#[trigger] misplaced(es, i),
                count > 0 ==> prev == es[count - 1].depth,
                spine(root.model()) == (if count > 0 { prev + 1 } else { 0 }),
            decreases n - pos,
        {
            let end = line_end(&chars, pos);
            let stop = if end < n && end > pos && chars[end - 1] == '\r' {
                end - 1
            } else {
                end
            };
            let next = if end < n {
                end + 1
            } else {
                n
            };
            let ghost line = chars@.subrange(pos as int, stop as int);
            proof {
                lemma_next_line(chars@, pos as int, end as int, stop as int, next as int);
                let tail = lines.skip(count as int);
                assert(tail.len() > 0);
                assert(tail[0] == lines[count as int]);
                assert(tail.drop_first() =~= lines.skip(count + 1));
                assert(lines[count as int] == line);
                assert(es[count as int] == entry_of(line));
            }
            let sp = run_end(&chars, pos, stop, true) - pos;
            let ws = run_end(&chars, pos, stop, false);
            let depth = sp / 4;
            if (count == 0 && depth != 0) || (count > 0 && depth > 0 && depth - 1 > prev) {
                proof {
                    assert(misplaced(es, count as int));
                }
                return Err(MalformedSave { line: count });
            }
            let node = parse_record(&chars, ws, stop);
            proof {
                assert(chars@.subrange(ws as int, stop as int) =~= trim_start(line));
                lemma_insert_at_spine(root.model(), depth as nat, node.model());
            }
            insert_at_depth(&mut root, depth, node);
            proof {
                assert(es.take(count + 1).drop_last() =~= es.take(count as int));
                assert(es.take(count + 1).last() == es[count as int]);
                assert(!misplaced(es, count as int));
            }
            count += 1;
            prev = depth;
            pos = next;
        }
        proof {
            assert(chars@.skip(n as int) =~= Seq::<char>::empty());
            assert(lines.skip(count as int).len() == 0);
            assert(es.take(count as int) =~= es);
        }
        Ok(root)
    }

    /// The task that a line stripped of its indentation describes (see
    /// `record`).
    pub fn from_string(text: &str) -> (r: ToDo)
        ensures
            r.model() == record(text@),
    {
        let chars = chars_of(text);
        let r = parse_record(&chars, 0, chars.len());
        assert(chars@.subrange(0, chars@.len() as int) =~= text@);
        r
    }

    /// The save-file text of the tree rooted here: one line per task below this
    /// node, in pre-order; this node itself has no line.
    pub fn save(&self) -> (r: String)
        ensures
            r@ == encode(self.model()),
    {
        let mut out: Vec<char> = Vec::new();
        let indent: Vec<char> = Vec::new();
        assert(indent@ =~= spaces(0));
        write_tasks(&self.sub_tasks, &indent, Ghost(0), &mut out);
        proof {
            lemma_model_children(*self);
        }
        string_of(&out)
    }
}

} // verus!

verus! {

/// A task text that fits on one line of a save file: no newline and no
/// carriage return.
pub open spec fn no_breaks(s: Seq<char>) -> bool {
    forall|j: int| 0 <= j < s.len() ==> s[j] != '\n' && s[j] != '\r'
}

/// Every task below the root has a text that fits on one line.
pub open spec fn savable(t: Task) -> bool {
    forall|i: int|
        0 <= i < flatten(t.children, 0).len() ==> no_breaks(
            #[trigger] flatten(t.children, 0)[i].task.text,
        )
}

/// Each entry is at most one level deeper than the one before it.
pub open spec fn steps_ok(es: Seq<Entry>) -> bool {
    forall|i: int| 1 <= i < es.len() ==> #[trigger] es[i].depth <= es[i - 1].depth + 1
}

/// Every entry is at depth `d` or deeper.
pub open spec fn at_least(es: Seq<Entry>, d: nat) -> bool {
    forall|i: int| 0 <= i < es.len() ==> #[trigger] es[i].depth >= d
}

/// The entries one level up.
pub open spec fn lower(es: Seq<Entry>) -> Seq<Entry> {
    es.map_values(|e: Entry| Entry { depth: (e.depth - 1) as nat, task: e.task })
}

proof fn lemma_steps_append(a: Seq<Entry>, b: Seq<Entry>)
    requires
        steps_ok(a),
        steps_ok(b),
        a.len() > 0 && b.len() > 0 ==> b[0].depth <= a.last().depth + 1,
    ensures
        steps_ok(a + b),
{
    let c = a + b;
    assert forall|i: int| 1 <= i < c.len() implies #[trigger] c[i].depth <= c[i - 1].depth + 1 by {
        if i < a.len() {
        } else if i == a.len() {
            assert(c[i] == b[0]);
            assert(c[i - 1] == a.last());
        } else {
            assert(c[i] == b[i - a.len()]);
            assert(c[i - 1] == b[i - 1 - a.len()]);
        }
    }
}

proof fn lemma_flatten_shape(s: Seq<Task>, d: nat)
    ensures
        steps_ok(flatten(s, d)),
        at_least(flatten(s, d), d),
        flatten(s, d).len() > 0 ==> flatten(s, d)[0].depth == d,
        flatten(s, d).len() == 0 <==> s.len() == 0,
    decreases s,
{
    if s.len() > 0 {
        let e = seq![Entry { depth: d, task: leaf(s[0]) }];
        let f1 = flatten(s[0].children, d + 1);
        let f2 = flatten(s.drop_first(), d);
        lemma_flatten_shape(s[0].children, d + 1);
        lemma_flatten_shape(s.drop_first(), d);
        lemma_steps_append(e, f1);
        let ef = e + f1;
        assert(at_least(ef, d)) by {
            assert forall|i: int| 0 <= i < ef.len() implies #[trigger] ef[i].depth >= d by {
                if i > 0 {
                    assert(ef[i] == f1[i - 1]);
                }
            }
        }
        lemma_steps_append(ef, f2);
        let all = ef + f2;
        assert(all =~= flatten(s, d));
        assert forall|i: int| 0 <= i < all.len() implies #[trigger] all[i].depth >= d by {
            if i >= ef.len() {
                assert(all[i] == f2[i - ef.len()]);
            } else {
                assert(all[i] == ef[i]);
            }
        }
        assert(all[0] == e[0]);
    }
}

proof fn lemma_grow_append(r: Task, a: Seq<Entry>, b: Seq<Entry>)
    ensures
        grow(r, a + b) == grow(grow(r, a), b),
    decreases b.len(),
{
    if b.len() == 0 {
        assert(a + b =~= a);
    } else {
        assert((a + b).drop_last() =~= a + b.drop_last());
        assert((a + b).last() == b.last());
        lemma_grow_append(r, a, b.drop_last());
    }
}

proof fn lemma_grow_under_last(r: Task, es: Seq<Entry>)
    requires
        r.children.len() > 0,
        at_least(es, 1),
    ensures
        grow(r, es) == (Task {
            children: r.children.update(
                r.children.len() - 1,
                grow(r.children.last(), lower(es)),
            ),
            ..r
        }),
    decreases es.len(),
{
    let n = r.children.len() - 1;
    if es.len() == 0 {
        assert(lower(es) =~= Seq::<Entry>::empty());
        assert(r.children.update(n, r.children.last()) =~= r.children);
    } else {
        let init = es.drop_last();
        assert(at_least(init, 1)) by {
            assert forall|i: int| 0 <= i < init.len() implies #[trigger] init[i].depth >= 1 by {
                assert(init[i] == es[i]);
            }
        }
        lemma_grow_under_last(r, init);
        assert(lower(es).drop_last() =~= lower(init));
        let x = grow(r.children.last(), lower(init));
        let g = Task { children: r.children.update(n, x), ..r };
        assert(es.last().depth >= 1) by {
            assert(es.last() == es[es.len() - 1]);
        }
        assert(g.children.len() > 0);
        assert(g.children[g.children.len() - 1] == x);
        assert(g.children.update(n, insert_at(x, (es.last().depth - 1) as nat, es.last().task))
            =~= r.children.update(n, insert_at(x, (es.last().depth - 1) as nat, es.last().task)));
    }
}

proof fn lemma_lower_flatten(s: Seq<Task>, d: nat)
    ensures
        lower(flatten(s, d + 1)) == flatten(s, d),
    decreases s,
{
    if s.len() > 0 {
        lemma_lower_flatten(s[0].children, d + 1);
        lemma_lower_flatten(s.drop_first(), d);
        let e = seq![Entry { depth: d + 1, task: leaf(s[0]) }];
        let f1 = flatten(s[0].children, d + 2);
        let f2 = flatten(s.drop_first(), d + 1);
        assert(flatten(s, d + 1) == e + f1 + f2);
        assert(lower(e + f1 + f2) =~= lower(e) + lower(f1) + lower(f2));
        assert(lower(e) =~= seq![Entry { depth: d, task: leaf(s[0]) }]);
        assert(lower(flatten(s, d + 1)) =~= flatten(s, d));
    } else {
        assert(lower(flatten(s, d + 1)) =~= flatten(s, d));
    }
}

proof fn lemma_grow_flatten(r: Task, s: Seq<Task>)
    ensures
        grow(r, flatten(s, 0)) == (Task { children: r.children + s, ..r }),
    decreases s,
{
    if s.len() == 0 {
        assert(r.children + s =~= r.children);
    } else {
        let t = s[0];
        let e = seq![Entry { depth: 0, task: leaf(t) }];
        let f1 = flatten(t.children, 1);
        let f2 = flatten(s.drop_first(), 0);
        lemma_grow_append(r, e + f1, f2);
        lemma_grow_append(r, e, f1);
        assert(e.drop_last() =~= Seq::<Entry>::empty());
        assert(e.last() == e[0]);
        let r1 = Task { children: r.children.push(leaf(t)), ..r };
        assert(grow(r, Seq::<Entry>::empty()) == r);
        assert(insert_at(r, 0, leaf(t)) == r1);
        assert(grow(r, e) == r1);
        lemma_flatten_shape(t.children, 1);
        lemma_grow_under_last(r1, f1);
        lemma_lower_flatten(t.children, 0);
        lemma_grow_flatten(leaf(t), t.children);
        assert(leaf(t).children + t.children =~= t.children);
        let r2 = Task { children: r.children.push(t), ..r };
        assert(r1.children.update(r1.children.len() - 1, t) =~= r2.children);
        assert(grow(r, e + f1) == r2);
        lemma_grow_flatten(r2, s.drop_first());
        assert(r2.children + s.drop_first() =~= r.children + s);
        assert(flatten(s, 0) == e + f1 + f2);
    }
}

proof fn lemma_leading_prefix(a: Seq<char>, b: Seq<char>, p: spec_fn(char) -> bool)
    requires
        forall|j: int| 0 <= j < a.len() ==> p(#[trigger] a[j]),
        b.len() > 0 && !p(b[0]),
    ensures
        leading(a + b, p) == a.len(),
{
    let c = a + b;
    assert forall|j: int| 0 <= j < a.len() implies p(#[trigger] c[j]) by {
        assert(c[j] == a[j]);
    }
    assert(c[a.len() as int] == b[0]);
    lemma_leading(c, p, a.len() as int);
}

proof fn lemma_entry_of_line(e: Entry)
    requires
        e.task.children.len() == 0,
    ensures
        entry_of(line_of(e)) == e,
{
    let l = line_of(e);
    let sp = spaces(4 * e.depth);
    let rest = marker(e.task) + e.task.text;
    assert(l =~= sp + rest);
    assert(rest[0] == '[');
    lemma_leading_prefix(sp, rest, is_space());
    lemma_leading_prefix(sp, rest, is_white());
    assert((4 * e.depth) / 4 == e.depth) by (nonlinear_arith);
    assert(trim_start(l) =~= rest);
    assert(rest.skip(8) =~= e.task.text);
    assert(rest[1] == marker(e.task)[1]);
    assert(rest[5] == marker(e.task)[5]);
    assert(record(rest).children =~= e.task.children);
}

proof fn lemma_split_render(es: Seq<Entry>)
    requires
        forall|i: int| 0 <= i < es.len() ==> no_breaks(#[trigger] es[i].task.text),
    ensures
        split_lines(render(es)) == es.map_values(|e: Entry| line_of(e)),
    decreases es.len(),
{
    if es.len() == 0 {
        assert(es.map_values(|e: Entry| line_of(e)) =~= Seq::<Seq<char>>::empty());
    } else {
        let e = es[0];
        let l = line_of(e);
        let s = render(es);
        let tail = render(es.drop_first());
        assert(s == l + seq!['\n'] + tail);
        assert(no_breaks(e.task.text));
        assert forall|j: int| 0 <= j < l.len() implies not_newline()(#[trigger] l[j]) by {
            let m = spaces(4 * e.depth) + marker(e.task);
            assert(l == m + e.task.text);
            if j >= m.len() {
                assert(l[j] == e.task.text[j - m.len()]);
            }
        }
        lemma_leading_prefix(l, seq!['\n'] + tail, not_newline());
        assert(l + seq!['\n'] + tail =~= l + (seq!['\n'] + tail));
        lemma_split_step(s, l.len());
        assert(l.len() > 0);
        assert(s[l.len() - 1] == l[l.len() - 1]);
        assert(l[l.len() - 1] != '\r') by {
            let m = spaces(4 * e.depth) + marker(e.task);
            assert(l == m + e.task.text);
            if e.task.text.len() > 0 {
                assert(l[l.len() - 1] == e.task.text[e.task.text.len() - 1]);
            } else {
                assert(l[l.len() - 1] == m[m.len() - 1]);
            }
        }
        assert(s.take(l.len() as int) =~= l);
        assert(s.skip(l.len() as int + 1) =~= tail);
        let rest = es.drop_first();
        assert forall|i: int| 0 <= i < rest.len() implies no_breaks(#[trigger] rest[i].task.text) by {
            assert(rest[i] == es[i + 1]);
        }
        lemma_split_render(rest);
        assert(es.map_values(|e: Entry| line_of(e)) =~= seq![l] + rest.map_values(
            |e: Entry| line_of(e),
        ));
    }
}

proof fn lemma_flatten_leaves(s: Seq<Task>, d: nat)
    ensures
        forall|i: int|
            0 <= i < flatten(s, d).len() ==> (#[trigger] flatten(s, d)[i]).task.children.len() == 0,
    decreases s,
{
    if s.len() > 0 {
        lemma_flatten_leaves(s[0].children, d + 1);
        lemma_flatten_leaves(s.drop_first(), d);
        let e = seq![Entry { depth: d, task: leaf(s[0]) }];
        let f1 = flatten(s[0].children, d + 1);
        let f2 = flatten(s.drop_first(), d);
        let all = e + f1 + f2;
        assert(all == flatten(s, d));
        assert forall|i: int| 0 <= i < all.len() implies (#[trigger] all[i]).task.children.len()
            == 0 by {
            if i == 0 {
            } else if i < 1 + f1.len() {
                assert(all[i] == f1[i - 1]);
            } else {
                assert(all[i] == f2[i - 1 - f1.len()]);
            }
        }
    }
}

/// Saving a tree and reading the text back gives the same tree: same shape,
/// same texts, flags and priorities, same order. The root must be as a load
/// makes it, and no text below it may hold a line break.
pub proof fn lemma_round_trip(t: Task)
    requires
        t.text.len() == 0,
        !t.complete,
        t.priority is None,
        savable(t),
    ensures
        well_nested(entries_of(encode(t))),
        decode(encode(t)) == t,
{
    let f = flatten(t.children, 0);
    lemma_split_render(f);
    lemma_flatten_leaves(t.children, 0);
    let es = entries_of(encode(t));
    assert(es =~= f) by {
        assert forall|i: int| 0 <= i < f.len() implies es[i] == f[i] by {
            lemma_entry_of_line(f[i]);
        }
    }
    lemma_flatten_shape(t.children, 0);
    assert forall|i: int| 0 <= i < es.len() implies !#[trigger] misplaced(es, i) by {
        if i > 0 {
            assert(es[i].depth <= es[i - 1].depth + 1);
        }
    }
    lemma_grow_flatten(empty_root(), t.children);
    assert(empty_root().children + t.children =~= t.children);
    assert(t.text =~= Seq::<char>::empty());
}

/// A line more than one level deeper than the line before it makes a save
/// file unreadable.
pub proof fn lemma_depth_jump_rejected(text: Seq<char>, i: int)
    requires
        0 < i < entries_of(text).len(),
        entries_of(text)[i].depth >= entries_of(text)[i - 1].depth + 2,
    ensures
        !well_nested(entries_of(text)),
{
    assert(misplaced(entries_of(text), i));
}

proof fn lemma_ancestors_before(es: Seq<Entry>, i: int, k: nat)
    requires
        well_nested(es),
        0 <= i < es.len(),
        k < es[i].depth,
    ensures
        exists|j: int| 0 <= j < i && #[trigger] es[j].depth == k,
    decreases i,
{
    assert(!misplaced(es, i));
    if i == 0 {
    } else if k == es[i - 1].depth {
        assert(es[i - 1].depth == k);
    } else {
        lemma_ancestors_before(es, i - 1, k);
        let j = choose|j: int| 0 <= j < i - 1 && #[trigger] es[j].depth == k;
        assert(es[j].depth == k);
    }
}

/// In a readable save file every indented line comes after a line one level
/// up: a task never appears without the task it belongs to.
pub proof fn lemma_indented_lines_have_parents(text: Seq<char>, i: int)
    requires
        well_nested(entries_of(text)),
        0 <= i < entries_of(text).len(),
        entries_of(text)[i].depth > 0,
    ensures
        exists|j: int|
            0 <= j < i && #[trigger] entries_of(text)[j].depth + 1 == entries_of(text)[i].depth,
{
    let es = entries_of(text);
    lemma_ancestors_before(es, i, (es[i].depth - 1) as nat);
    let j = choose|j: int| 0 <= j < i && #[trigger] es[j].depth == (es[i].depth - 1) as nat;
    assert(es[j].depth + 1 == es[i].depth);
}

} // verus!
