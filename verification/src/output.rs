//! The rows of the task list that `moss list` prints.
//!
//! ```text
//!   build       Build the project in release mode
//!   test   dep  Run all tests
//!   dev    par  Start dev servers
//! ```
//!
//! Each row shows a task's name, padded to the longest name, the labels of the flags
//! it declares, and its description.
use vstd::prelude::*;

use crate::ast::{opt_string_view, Mossfile, Task, TaskFlagsView};
use crate::graph::str_views;
use crate::text::str_chars;

verus! {

/// One row of the task list.
pub struct TaskEntry<'a> {
    pub name: &'a str,
    pub description: Option<&'a str>,
    pub flags: Vec<&'static str>,
}

/// The labels of the flags that a task declares, in this order: `par` (parallel),
/// `wat` (watch), `rdy` (ready), `dep` (dependencies), `arg` (arguments).
pub open spec fn flag_labels(f: TaskFlagsView) -> Seq<Seq<char>> {
    (if f.parallel {
        seq![seq!['p', 'a', 'r']]
    } else {
        Seq::empty()
    }) + (if f.watch is Some {
        seq![seq!['w', 'a', 't']]
    } else {
        Seq::empty()
    }) + (if f.ready is Some {
        seq![seq!['r', 'd', 'y']]
    } else {
        Seq::empty()
    }) + (if f.deps.len() > 0 {
        seq![seq!['d', 'e', 'p']]
    } else {
        Seq::empty()
    }) + (if f.args.len() > 0 {
        seq![seq!['a', 'r', 'g']]
    } else {
        Seq::empty()
    })
}

proof fn lemma_concat_contains(a: Seq<Seq<char>>, b: Seq<Seq<char>>, x: Seq<char>)
    ensures
        (a + b).contains(x) <==> (a.contains(x) || b.contains(x)),
{
    if (a + b).contains(x) {
        let i = choose|i: int| 0 <= i < (a + b).len() && (a + b)[i] == x;
        if i < a.len() {
            assert(a[i] == x);
        } else {
            assert(b[i - a.len()] == x);
        }
    }
    if a.contains(x) {
        let i = choose|i: int| 0 <= i < a.len() && a[i] == x;
        assert((a + b)[i] == x);
    }
    if b.contains(x) {
        let i = choose|i: int| 0 <= i < b.len() && b[i] == x;
        assert((a + b)[a.len() + i] == x);
    }
}

proof fn lemma_label_part(flag: bool, l: Seq<char>, x: Seq<char>)
    ensures
        (if flag {
            seq![l]
        } else {
            Seq::<Seq<char>>::empty()
        }).contains(x) <==> (flag && x == l),
{
    if flag {
        assert(seq![l][0] == l);
    }
}

/// The list of a task shows each label exactly when the task declares its flag,
/// whatever its other flags: `par` when it runs its commands in parallel, `wat` when it
/// watches files, `rdy` when it has a ready pattern, `dep` when it has dependencies and
/// `arg` when it takes arguments; and nothing else.
pub proof fn law_flag_labels(f: TaskFlagsView)
    ensures
        flag_labels(f).contains(seq!['p', 'a', 'r']) <==> f.parallel,
        flag_labels(f).contains(seq!['w', 'a', 't']) <==> f.watch is Some,
        flag_labels(f).contains(seq!['r', 'd', 'y']) <==> f.ready is Some,
        flag_labels(f).contains(seq!['d', 'e', 'p']) <==> f.deps.len() > 0,
        flag_labels(f).contains(seq!['a', 'r', 'g']) <==> f.args.len() > 0,
        forall|x: Seq<char>|
            #![trigger flag_labels(f).contains(x)]
            flag_labels(f).contains(x) ==> x == seq!['p', 'a', 'r'] || x == seq!['w', 'a', 't']
                || x == seq!['r', 'd', 'y'] || x == seq!['d', 'e', 'p'] || x == seq!['a', 'r', 'g'],
{
    let par = seq!['p', 'a', 'r'];
    let wat = seq!['w', 'a', 't'];
    let rdy = seq!['r', 'd', 'y'];
    let dep = seq!['d', 'e', 'p'];
    let arg = seq!['a', 'r', 'g'];
    let p1 = if f.parallel { seq![par] } else { Seq::<Seq<char>>::empty() };
    let p2 = if f.watch is Some { seq![wat] } else { Seq::<Seq<char>>::empty() };
    let p3 = if f.ready is Some { seq![rdy] } else { Seq::<Seq<char>>::empty() };
    let p4 = if f.deps.len() > 0 { seq![dep] } else { Seq::<Seq<char>>::empty() };
    let p5 = if f.args.len() > 0 { seq![arg] } else { Seq::<Seq<char>>::empty() };
    assert(flag_labels(f) == p1 + p2 + p3 + p4 + p5);
    assert forall|x: Seq<char>| flag_labels(f).contains(x) <==> ((f.parallel && x == par) || (
    f.watch is Some && x == wat) || (f.ready is Some && x == rdy) || (f.deps.len() > 0 && x == dep)
        || (f.args.len() > 0 && x == arg)) by {
        lemma_concat_contains(p1 + p2 + p3 + p4, p5, x);
        lemma_concat_contains(p1 + p2 + p3, p4, x);
        lemma_concat_contains(p1 + p2, p3, x);
        lemma_concat_contains(p1, p2, x);
        lemma_label_part(f.parallel, par, x);
        lemma_label_part(f.watch is Some, wat, x);
        lemma_label_part(f.ready is Some, rdy, x);
        lemma_label_part(f.deps.len() > 0, dep, x);
        lemma_label_part(f.args.len() > 0, arg, x);
    }
    assert(par[0] != wat[0] && par[0] != rdy[0] && par[0] != dep[0] && par[1] != arg[1]);
    assert(wat[0] != rdy[0] && wat[0] != dep[0] && wat[0] != arg[0]);
    assert(rdy[0] != dep[0] && rdy[0] != arg[0] && dep[0] != arg[0]);
}

/// One for a flag that is set, zero otherwise.
pub open spec fn one_if(b: bool) -> int {
    if b {
        1
    } else {
        0
    }
}

/// The labels come once each, in the fixed order `par`, `wat`, `rdy`, `dep`, `arg`:
/// there are as many as the flags set, and each stands after those of the flags set
/// before it in that order.
pub proof fn law_flag_labels_order(f: TaskFlagsView)
    ensures
        flag_labels(f).len() == one_if(f.parallel) + one_if(f.watch is Some) + one_if(
            f.ready is Some,
        ) + one_if(f.deps.len() > 0) + one_if(f.args.len() > 0),
        f.parallel ==> flag_labels(f)[0] == seq!['p', 'a', 'r'],
        f.watch is Some ==> flag_labels(f)[one_if(f.parallel)] == seq!['w', 'a', 't'],
        f.ready is Some ==> flag_labels(f)[one_if(f.parallel) + one_if(f.watch is Some)] == seq![
            'r',
            'd',
            'y',
        ],
        f.deps.len() > 0 ==> flag_labels(f)[one_if(f.parallel) + one_if(f.watch is Some) + one_if(
            f.ready is Some,
        )] == seq!['d', 'e', 'p'],
        f.args.len() > 0 ==> flag_labels(f)[one_if(f.parallel) + one_if(f.watch is Some) + one_if(
            f.ready is Some,
        ) + one_if(f.deps.len() > 0)] == seq!['a', 'r', 'g'],
{
    let p1 = if f.parallel { seq![seq!['p', 'a', 'r']] } else { Seq::<Seq<char>>::empty() };
    let p2 = if f.watch is Some { seq![seq!['w', 'a', 't']] } else { Seq::<Seq<char>>::empty() };
    let p3 = if f.ready is Some { seq![seq!['r', 'd', 'y']] } else { Seq::<Seq<char>>::empty() };
    let p4 = if f.deps.len() > 0 { seq![seq!['d', 'e', 'p']] } else { Seq::<Seq<char>>::empty() };
    let p5 = if f.args.len() > 0 { seq![seq!['a', 'r', 'g']] } else { Seq::<Seq<char>>::empty() };
    let q2 = p1 + p2;
    let q3 = q2 + p3;
    let q4 = q3 + p4;
    assert(flag_labels(f) == q4 + p5);
    if f.args.len() > 0 {
        assert((q4 + p5)[q4.len() as int] == p5[0]);
    }
    if f.deps.len() > 0 {
        assert((q3 + p4)[q3.len() as int] == p4[0]);
        assert((q4 + p5)[q3.len() as int] == q4[q3.len() as int]);
    }
    if f.ready is Some {
        assert((q2 + p3)[q2.len() as int] == p3[0]);
        assert(q4[q2.len() as int] == q3[q2.len() as int]);
        assert((q4 + p5)[q2.len() as int] == q4[q2.len() as int]);
    }
    if f.watch is Some {
        assert((p1 + p2)[p1.len() as int] == p2[0]);
        assert(q3[p1.len() as int] == q2[p1.len() as int]);
        assert(q4[p1.len() as int] == q3[p1.len() as int]);
        assert((q4 + p5)[p1.len() as int] == q4[p1.len() as int]);
    }
    if f.parallel {
        assert(q2[0] == p1[0]);
        assert(q3[0] == q2[0]);
        assert(q4[0] == q3[0]);
        assert((q4 + p5)[0] == q4[0]);
    }
}

pub open spec fn opt_str_view(o: Option<&str>) -> Option<Seq<char>> {
    match o {
        Some(s) => Some(s@),
        None => None,
    }
}

impl<'a> TaskEntry<'a> {
    /// The row of `task`.
    pub fn from_task(task: &'a Task) -> (e: Self)
        ensures
            e.name@ == task.name@,
            opt_str_view(e.description) == opt_string_view(task.description),
            str_views(e.flags@) == flag_labels(task@.flags),
    {
        let mut flags: Vec<&'static str> = Vec::new();
        let ghost mut want: Seq<Seq<char>> = Seq::empty();
        proof {
            reveal_strlit("par");
            reveal_strlit("wat");
            reveal_strlit("rdy");
            reveal_strlit("dep");
            reveal_strlit("arg");
        }
        if task.flags.parallel {
            flags.push("par");
        }
        proof {
            want = if task.flags.parallel { seq![seq!['p', 'a', 'r']] } else { Seq::empty() };
            assert(str_views(flags@) =~~= want);
        }
        if task.flags.watch.is_some() {
            flags.push("wat");
        }
        proof {
            want = want + if task.flags.watch is Some { seq![seq!['w', 'a', 't']] } else { Seq::empty() };
            assert(str_views(flags@) =~~= want);
        }
        if task.flags.ready.is_some() {
            flags.push("rdy");
        }
        proof {
            want = want + if task.flags.ready is Some { seq![seq!['r', 'd', 'y']] } else { Seq::empty() };
            assert(str_views(flags@) =~~= want);
        }
        if task.flags.deps.len() > 0 {
            flags.push("dep");
        }
        proof {
            want = want + if task.flags.deps.len() > 0 { seq![seq!['d', 'e', 'p']] } else { Seq::empty() };
            assert(str_views(flags@) =~~= want);
        }
        if task.flags.args.len() > 0 {
            flags.push("arg");
        }
        proof {
            want = want + if task.flags.args.len() > 0 { seq![seq!['a', 'r', 'g']] } else { Seq::empty() };
            assert(str_views(flags@) =~~= want);
            assert(want =~= flag_labels(task@.flags));
        }
        let description = match &task.description {
            Some(d) => Some(d.as_str()),
            None => None,
        };
        TaskEntry { name: task.name.as_str(), description, flags }
    }
}

/// The length in bytes (`str::len`) of the longest name among `entries` (0 when there
/// is none).
pub open spec fn max_name_bytes(entries: Seq<TaskEntry>) -> nat
    decreases entries.len(),
{
    if entries.len() == 0 {
        0
    } else {
        let rest = max_name_bytes(entries.drop_last());
        let n = entries.last().name.len() as nat;
        if n > rest {
            n
        } else {
            rest
        }
    }
}

/// The width of the name column: the length in bytes of the longest name.
pub fn name_width(entries: &[TaskEntry]) -> (w: usize)
    ensures
        w == max_name_bytes(entries@),
{
    let mut w: usize = 0;
    let mut i: usize = 0;
    while i < entries.len()
        invariant
            i <= entries.len(),
            w == max_name_bytes(entries@.subrange(0, i as int)),
        decreases entries.len() - i,
    {
        let n = entries[i].name.len();
        proof {
            assert(entries@.subrange(0, i + 1).drop_last() =~= entries@.subrange(0, i as int));
            assert(entries@.subrange(0, i + 1).last() == entries@[i as int]);
        }
        if n > w {
            w = n;
        }
        i += 1;
    }
    assert(entries@.subrange(0, entries.len() as int) =~= entries@);
    w
}

/// `label` padded with spaces on the right to at least three characters.
pub open spec fn pad3(label: Seq<char>) -> Seq<char> {
    if label.len() >= 3 {
        label
    } else {
        label + Seq::new((3 - label.len()) as nat, |i: int| ' ')
    }
}

/// The labels, each padded to three characters, separated by single spaces.
pub open spec fn flag_column_of(labels: Seq<Seq<char>>) -> Seq<char>
    decreases labels.len(),
{
    if labels.len() == 0 {
        Seq::empty()
    } else if labels.len() == 1 {
        pad3(labels[0])
    } else {
        flag_column_of(labels.drop_last()) + seq![' '] + pad3(labels.last())
    }
}

/// The flag column of a row: each label padded to three characters, separated by
/// single spaces.
pub fn flag_column(flags: &Vec<&str>) -> (r: String)
    ensures
        r@ == flag_column_of(str_views(flags@)),
{
    let ghost fv = str_views(flags@);
    let mut out = String::new();
    let mut i: usize = 0;
    while i < flags.len()
        invariant
            i <= flags.len(),
            fv == str_views(flags@),
            out@ == flag_column_of(fv.subrange(0, i as int)),
        decreases flags.len() - i,
    {
        let ghost before = out@;
        if i > 0 {
            crate::text::string_push(&mut out, ' ');
        }
        let cs = str_chars(flags[i]);
        let mut j: usize = 0;
        while j < cs.len()
            invariant
                j <= cs.len(),
                out@ == (if i > 0 { before + seq![' '] } else { before }) + cs@.subrange(0, j as int),
            decreases cs.len() - j,
        {
            crate::text::string_push(&mut out, cs[j]);
            j += 1;
            assert(out@ =~= (if i > 0 { before + seq![' '] } else { before }) + cs@.subrange(0, j as int));
        }
        let mut k: usize = cs.len();
        while k < 3
            invariant
                cs.len() <= k <= 3 || (k == cs.len() && k > 3),
                out@ == (if i > 0 { before + seq![' '] } else { before }) + cs@ + Seq::new(
                    (k - cs.len()) as nat,
                    |x: int| ' ',
                ),
            decreases 3 - k,
        {
            crate::text::string_push(&mut out, ' ');
            k += 1;
            assert(out@ =~= (if i > 0 { before + seq![' '] } else { before }) + cs@ + Seq::new(
                (k - cs.len()) as nat,
                |x: int| ' ',
            ));
        }
        proof {
            assert(cs@.subrange(0, cs.len() as int) =~= cs@);
            assert(fv[i as int] == cs@);
            let pre = fv.subrange(0, i as int);
            let next = fv.subrange(0, i + 1);
            assert(next.drop_last() =~= pre);
            if cs.len() >= 3 {
                assert(out@ =~= (if i > 0 { before + seq![' '] } else { before }) + pad3(cs@));
            } else {
                assert(out@ =~= (if i > 0 { before + seq![' '] } else { before }) + pad3(cs@));
            }
            if i == 0 {
                assert(before =~= Seq::<char>::empty());
            }
        }
        i += 1;
    }
    assert(fv.subrange(0, flags.len() as int) =~= fv);
    out
}

/// The rows of the task list: one per task, in declaration order.
pub fn task_entries(mossfile: &Mossfile) -> (r: Vec<TaskEntry>)
    ensures
        r.len() == mossfile.tasks.len(),
        forall|i: int|
            0 <= i < r.len() ==> {
                &&& (#[trigger] r@[i]).name@ == mossfile.tasks@[i].name@
                &&& opt_str_view(r@[i].description) == opt_string_view(mossfile.tasks@[i].description)
                &&& str_views(r@[i].flags@) == flag_labels(mossfile.tasks@[i]@.flags)
            },
{
    let mut r: Vec<TaskEntry> = Vec::new();
    let mut i: usize = 0;
    while i < mossfile.tasks.len()
        invariant
            i <= mossfile.tasks.len(),
            r.len() == i,
            forall|k: int|
                0 <= k < i ==> {
                    &&& (#[trigger] r@[k]).name@ == mossfile.tasks@[k].name@
                    &&& opt_str_view(r@[k].description) == opt_string_view(mossfile.tasks@[k].description)
                    &&& str_views(r@[k].flags@) == flag_labels(mossfile.tasks@[k]@.flags)
                },
        decreases mossfile.tasks.len() - i,
    {
        r.push(TaskEntry::from_task(&mossfile.tasks[i]));
        i += 1;
    }
    r
}

} // verus!
