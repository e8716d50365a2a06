//! The order of the flags on a task header does not matter: each flag sets its own
//! field of the task's flags.
use vstd::prelude::*;

use crate::ast::TaskFlagsView;
use crate::lexer::{TokenKindView, TokenView};
use crate::parser::{adv, expect_assignment, expect_equals, header_flags, ident_list, list_items};
use vstd::seq_lib::commutative_foldl;

verus! {

/// One flag of a task header, as it was read.
pub enum FlagItem {
    Parallel,
    Watch(Seq<char>),
    Ready(Seq<char>),
    Deps(Seq<Seq<char>>),
    Args(Seq<Seq<char>>),
}

/// The flag at `c`, and where the header goes on after it.
pub open spec fn flag_item(t: Seq<TokenView>, c: int, s: Seq<char>) -> Option<(FlagItem, int)> {
    if c < 0 || c + 1 >= t.len() {
        None
    } else {
        match t[c].kind {
            TokenKindView::Parallel => Some((FlagItem::Parallel, c + 1)),
            TokenKindView::Watch => match expect_assignment(t, c + 1, seq!['w', 'a', 't', 'c', 'h'], s) {
                Ok((v, c2)) => Some((FlagItem::Watch(v), c2)),
                Err(_) => None,
            },
            TokenKindView::Ready => match expect_assignment(t, c + 1, seq!['r', 'e', 'a', 'd', 'y'], s) {
                Ok((v, c2)) => Some((FlagItem::Ready(v), c2)),
                Err(_) => None,
            },
            TokenKindView::Deps => match expect_equals(t, c + 1, seq!['d', 'e', 'p', 's'], s) {
                Ok(c1) => match ident_list(t, c1, s) {
                    Ok((l, c2)) => Some((FlagItem::Deps(l), c2)),
                    Err(_) => None,
                },
                Err(_) => None,
            },
            TokenKindView::Args => match expect_equals(t, c + 1, seq!['a', 'r', 'g', 's'], s) {
                Ok(c1) => match ident_list(t, c1, s) {
                    Ok((l, c2)) => Some((FlagItem::Args(l), c2)),
                    Err(_) => None,
                },
                Err(_) => None,
            },
            _ => None,
        }
    }
}

/// The flags after the flag `it` is set.
pub open spec fn apply_item(f: TaskFlagsView, it: FlagItem) -> TaskFlagsView {
    match it {
        FlagItem::Parallel => TaskFlagsView { parallel: true, ..f },
        FlagItem::Watch(v) => TaskFlagsView { watch: Some(v), ..f },
        FlagItem::Ready(v) => TaskFlagsView { ready: Some(v), ..f },
        FlagItem::Deps(l) => TaskFlagsView { deps: l, ..f },
        FlagItem::Args(l) => TaskFlagsView { args: l, ..f },
    }
}

/// Two flags of different kinds.
pub open spec fn different_flags(a: FlagItem, b: FlagItem) -> bool {
    match (a, b) {
        (FlagItem::Parallel, FlagItem::Parallel) => false,
        (FlagItem::Watch(_), FlagItem::Watch(_)) => false,
        (FlagItem::Ready(_), FlagItem::Ready(_)) => false,
        (FlagItem::Deps(_), FlagItem::Deps(_)) => false,
        (FlagItem::Args(_), FlagItem::Args(_)) => false,
        _ => true,
    }
}

/// `t` with the token runs `c..m` and `m..e` exchanged.
pub open spec fn swap_runs(t: Seq<TokenView>, c: int, m: int, e: int) -> Seq<TokenView> {
    t.subrange(0, c) + t.subrange(m, e) + t.subrange(c, m) + t.subrange(e, t.len() as int)
}

/// The kinds of `u[d..d + n]` are those of `t[c..c + n]`.
pub open spec fn same_kinds(t: Seq<TokenView>, c: int, u: Seq<TokenView>, d: int, n: int) -> bool {
    forall|i: int| 0 <= i < n ==> (#[trigger] u[d + i]).kind == t[c + i].kind
}

proof fn lemma_list_items_shift(
    t: Seq<TokenView>,
    x: int,
    b1: usize,
    u: Seq<TokenView>,
    y: int,
    b2: usize,
    acc: Seq<Seq<char>>,
    s: Seq<char>,
    s2: Seq<char>,
    c1: int,
    l: Seq<Seq<char>>,
)
    requires
        0 <= x,
        0 <= y,
        list_items(t, x, b1, acc, s) == Ok::<(Seq<Seq<char>>, int), crate::error::ParseErrorView>((l, c1)),
        c1 + 1 < t.len(),
        y + (c1 - x) + 1 < u.len(),
        same_kinds(t, x, u, y, c1 - x),
    ensures
        list_items(u, y, b2, acc, s2) == Ok::<(Seq<Seq<char>>, int), crate::error::ParseErrorView>((l, y + c1 - x)),
    decreases t.len() - x,
{
    crate::parser::lemma_list_items_advances(t, x, b1, acc, s);
    if x < t.len() {
        match t[x].kind {
            TokenKindView::Comma => crate::parser::lemma_list_items_advances(t, x + 1, b1, acc, s),
            TokenKindView::Ident(name) => crate::parser::lemma_list_items_advances(
                t,
                x + 1,
                b1,
                acc.push(name),
                s,
            ),
            _ => {},
        }
    }
    assert(x < c1);
    assert(u[y + 0].kind == t[x + 0].kind);
    match t[x].kind {
        TokenKindView::Comma => {
            assert(same_kinds(t, x + 1, u, y + 1, c1 - x - 1)) by {
                assert forall|i: int| 0 <= i < c1 - x - 1 implies (#[trigger] u[y + 1 + i]).kind
                    == t[x + 1 + i].kind by {
                    assert(u[y + (i + 1)].kind == t[x + (i + 1)].kind);
                }
            }
            lemma_list_items_shift(t, x + 1, b1, u, y + 1, b2, acc, s, s2, c1, l);
        },
        TokenKindView::Ident(name) => {
            assert(same_kinds(t, x + 1, u, y + 1, c1 - x - 1)) by {
                assert forall|i: int| 0 <= i < c1 - x - 1 implies (#[trigger] u[y + 1 + i]).kind
                    == t[x + 1 + i].kind by {
                    assert(u[y + (i + 1)].kind == t[x + (i + 1)].kind);
                }
            }
            lemma_list_items_shift(t, x + 1, b1, u, y + 1, b2, acc.push(name), s, s2, c1, l);
        },
        _ => {},
    }
}

proof fn lemma_flag_item_advances(t: Seq<TokenView>, c: int, s: Seq<char>)
    ensures
        flag_item(t, c, s) matches Some((_, c2)) ==> c < c2 < t.len(),
{
    if 0 <= c && c + 1 < t.len() {
        let c1 = adv(t, c + 1);
        if t[c1].kind == TokenKindView::LBracket {
            crate::parser::lemma_list_items_advances(t, adv(t, c1), t[c1].span.start, Seq::empty(), s);
        }
    }
}

/// Reading a flag at `c` and going on from where it ends is reading the header at `c`.
proof fn lemma_header_flags_unfold(t: Seq<TokenView>, c: int, f: TaskFlagsView, s: Seq<char>)
    requires
        flag_item(t, c, s) is Some,
    ensures
        flag_item(t, c, s) matches Some((it, c2)) && header_flags(t, c, f, s) == header_flags(
            t,
            c2,
            apply_item(f, it),
            s,
        ),
{
}

/// A flag reads the same wherever its tokens stand.
proof fn lemma_flag_item_shift(
    t: Seq<TokenView>,
    c: int,
    u: Seq<TokenView>,
    d: int,
    s: Seq<char>,
    s2: Seq<char>,
    it: FlagItem,
    c2: int,
)
    requires
        0 <= c,
        0 <= d,
        flag_item(t, c, s) == Some((it, c2)),
        c2 + 1 < t.len(),
        d + (c2 - c) + 1 < u.len(),
        same_kinds(t, c, u, d, c2 - c),
    ensures
        flag_item(u, d, s2) == Some((it, d + c2 - c)),
{
    lemma_flag_item_advances(t, c, s);
    assert(u[d + 0].kind == t[c + 0].kind);
    if c + 1 < c2 {
        assert(u[d + 1].kind == t[c + 1].kind);
    }
    if c + 2 < c2 {
        assert(u[d + 2].kind == t[c + 2].kind);
    }
    match t[c].kind {
        TokenKindView::Deps | TokenKindView::Args => {
            let c1 = c + 2;
            assert(expect_equals(t, c + 1, seq!['d', 'e', 'p', 's'], s) is Ok ==> adv(t, c + 1) == c1);
            if t[c + 1].kind == TokenKindView::Equals && t[c1].kind == TokenKindView::LBracket {
                crate::parser::lemma_list_items_advances(t, adv(t, c1), t[c1].span.start, Seq::empty(), s);
                let (l, _) = ident_list(t, c1, s)->Ok_0;
                assert(same_kinds(t, c + 3, u, d + 3, c2 - c - 3)) by {
                    assert forall|i: int| 0 <= i < c2 - c - 3 implies (#[trigger] u[d + 3 + i]).kind
                        == t[c + 3 + i].kind by {
                        assert(u[d + (i + 3)].kind == t[c + (i + 3)].kind);
                    }
                }
                lemma_list_items_shift(
                    t,
                    c + 3,
                    t[c1].span.start,
                    u,
                    d + 3,
                    u[d + 2].span.start,
                    Seq::empty(),
                    s,
                    s2,
                    c2,
                    l,
                );
            }
        },
        _ => {},
    }
}

/// Runs of tokens from `e` on that agree give the same header flags.
proof fn lemma_header_flags_suffix(
    t: Seq<TokenView>,
    u: Seq<TokenView>,
    e: int,
    f: TaskFlagsView,
    s: Seq<char>,
)
    requires
        0 <= e,
        t.len() == u.len(),
        forall|i: int| e <= i < t.len() ==> #[trigger] u[i] == t[i],
    ensures
        header_flags(u, e, f, s) == header_flags(t, e, f, s),
    decreases t.len() - e,
{
    if e < t.len() {
        assert(u[e] == t[e]);
        if e + 1 < t.len() {
            assert(u[e + 1] == t[e + 1]);
        }
        if e + 2 < t.len() {
            assert(u[e + 2] == t[e + 2]);
        }
        match t[e].kind {
            TokenKindView::Parallel => if e + 1 < t.len() {
                lemma_header_flags_suffix(t, u, e + 1, apply_item(f, FlagItem::Parallel), s);
            },
            TokenKindView::Watch | TokenKindView::Ready => if e + 1 < t.len() {
                if let Ok((v, c2)) = expect_assignment(t, e + 1, seq!['w', 'a', 't', 'c', 'h'], s) {
                    crate::parser::lemma_header_flags_advances(t, e, f, s);
                    lemma_header_flags_suffix(t, u, c2, TaskFlagsView { watch: Some(v), ..f }, s);
                }
                if let Ok((v, c2)) = expect_assignment(t, e + 1, seq!['r', 'e', 'a', 'd', 'y'], s) {
                    lemma_header_flags_suffix(t, u, c2, TaskFlagsView { ready: Some(v), ..f }, s);
                }
            },
            TokenKindView::Deps | TokenKindView::Args => if e + 1 < t.len() {
                let c1 = adv(t, e + 1);
                if c1 < t.len() {
                    assert(u[c1] == t[c1]);
                }
                if t[e + 1].kind == TokenKindView::Equals && t[c1].kind == TokenKindView::LBracket {
                    lemma_list_items_congruent(t, u, adv(t, c1), t[c1].span.start, Seq::empty(), s);
                    crate::parser::lemma_list_items_advances(t, adv(t, c1), t[c1].span.start, Seq::empty(), s);
                    if let Ok((l, c2)) = ident_list(t, c1, s) {
                        lemma_header_flags_suffix(t, u, c2, TaskFlagsView { deps: l, ..f }, s);
                        lemma_header_flags_suffix(t, u, c2, TaskFlagsView { args: l, ..f }, s);
                    }
                }
            },
            _ => {},
        }
    }
}

proof fn lemma_list_items_congruent(
    t: Seq<TokenView>,
    u: Seq<TokenView>,
    x: int,
    b: usize,
    acc: Seq<Seq<char>>,
    s: Seq<char>,
)
    requires
        0 <= x,
        t.len() == u.len(),
        forall|i: int| x <= i < t.len() ==> #[trigger] u[i] == t[i],
    ensures
        list_items(u, x, b, acc, s) == list_items(t, x, b, acc, s),
    decreases t.len() - x,
{
    if x < t.len() {
        assert(u[x] == t[x]);
        match t[x].kind {
            TokenKindView::Comma => lemma_list_items_congruent(t, u, x + 1, b, acc, s),
            TokenKindView::Ident(name) => lemma_list_items_congruent(t, u, x + 1, b, acc.push(name), s),
            _ => {},
        }
    }
}

/// Exchanging two adjacent flags of different kinds on a task header changes nothing:
/// the header gives the same flags, and stops at the same token, or fails the same way.
#[verifier::spinoff_prover]
#[verifier::rlimit(40)]
pub proof fn law_flag_order(
    t: Seq<TokenView>,
    c: int,
    m: int,
    e: int,
    a: FlagItem,
    b: FlagItem,
    f: TaskFlagsView,
    s: Seq<char>,
)
    requires
        0 <= c,
        e + 1 < t.len(),
        flag_item(t, c, s) == Some((a, m)),
        flag_item(t, m, s) == Some((b, e)),
        different_flags(a, b),
    ensures
        header_flags(swap_runs(t, c, m, e), c, f, s) == header_flags(t, c, f, s),
{
    let u = swap_runs(t, c, m, e);
    lemma_flag_item_advances(t, c, s);
    lemma_flag_item_advances(t, m, s);
    assert(u.len() == t.len());
    let nb = e - m;
    let na = m - c;
    assert forall|i: int| 0 <= i < nb implies #[trigger] u[c + i] == t[m + i] by {}
    assert forall|i: int| 0 <= i < na implies #[trigger] u[c + nb + i] == t[c + i] by {}
    assert forall|i: int| e <= i < t.len() implies #[trigger] u[i] == t[i] by {}
    assert(same_kinds(t, m, u, c, nb)) by {
        assert forall|i: int| 0 <= i < nb implies (#[trigger] u[c + i]).kind == t[m + i].kind by {
            assert(u[c + i] == t[m + i]);
        }
    }
    assert(same_kinds(t, c, u, c + nb, na)) by {
        assert forall|i: int| 0 <= i < na implies (#[trigger] u[c + nb + i]).kind == t[c + i].kind by {
            assert(u[c + nb + i] == t[c + i]);
        }
    }
    lemma_flag_item_shift(t, m, u, c, s, s, b, e);
    lemma_flag_item_shift(t, c, u, c + nb, s, s, a, m);
    lemma_header_flags_unfold(t, c, f, s);
    lemma_header_flags_unfold(t, m, apply_item(f, a), s);
    lemma_header_flags_unfold(u, c, f, s);
    lemma_header_flags_unfold(u, c + nb, apply_item(f, b), s);
    let g = apply_item(apply_item(f, a), b);
    assert(apply_item(apply_item(f, b), a) == g);
    lemma_header_flags_suffix(t, u, e, g, s);
}

// ── Any reordering ─────────────────────────────────────────────────────────────

/// The flag that the tokens `r` spell when the rest of the header, `post`, follows.
pub open spec fn run_item(r: Seq<TokenView>, post: Seq<TokenView>, s: Seq<char>) -> FlagItem {
    match flag_item(r + post, 0, s) {
        Some((it, _)) => it,
        None => FlagItem::Parallel,
    }
}

/// The tokens `r` spell exactly one flag when `post` follows them.
pub open spec fn reads_as_flag(r: Seq<TokenView>, post: Seq<TokenView>, s: Seq<char>) -> bool {
    flag_item(r + post, 0, s) == Some((run_item(r, post, s), r.len() as int))
}

/// The flags `f` after the flags `its` are set in turn.
spec fn apply_items(f: TaskFlagsView, its: Seq<FlagItem>) -> TaskFlagsView
    decreases its.len(),
{
    if its.len() == 0 {
        f
    } else {
        apply_items(apply_item(f, its[0]), its.drop_first())
    }
}

/// Any two flags of one kind in `its` are the same flag.
spec fn kinds_agree(its: Seq<FlagItem>) -> bool {
    forall|j: int, k: int|
        #![trigger its[j], its[k]]
        0 <= j < its.len() && 0 <= k < its.len() && !different_flags(its[j], its[k]) ==> its[j]
            == its[k]
}

/// The total length of the runs `rs`, as a fold.
spec fn add_len() -> spec_fn(int, Seq<TokenView>) -> int {
    |acc: int, r: Seq<TokenView>| acc + r.len()
}

proof fn lemma_flatten_len(rs: Seq<Seq<TokenView>>)
    ensures
        rs.flatten().len() == rs.fold_left(0int, add_len()),
    decreases rs.len(),
{
    rs.lemma_flatten_and_flatten_alt_are_equivalent();
    lemma_flatten_alt_len(rs);
}

proof fn lemma_flatten_alt_len(rs: Seq<Seq<TokenView>>)
    ensures
        rs.flatten_alt().len() == rs.fold_left(0int, add_len()),
    decreases rs.len(),
{
    if rs.len() > 0 {
        lemma_flatten_alt_len(rs.drop_last());
    }
}

proof fn lemma_contains_drop_first(its: Seq<FlagItem>, x: FlagItem)
    requires
        its.len() > 0,
    ensures
        its.contains(x) <==> (x == its[0] || its.drop_first().contains(x)),
{
    let rest = its.drop_first();
    if its.contains(x) {
        let i = choose|i: int| 0 <= i < its.len() && its[i] == x;
        if i > 0 {
            assert(rest[i - 1] == x);
        }
    }
    if rest.contains(x) {
        let i = choose|i: int| 0 <= i < rest.len() && rest[i] == x;
        assert(its[i + 1] == x);
    }
    if x == its[0] {
        assert(its[0] == x);
    }
}

/// What setting the flags `its` in turn gives, when any two flags of one kind in them
/// agree: a field is set exactly when a flag of its kind is among them.
#[verifier::spinoff_prover]
proof fn lemma_apply_items(f: TaskFlagsView, its: Seq<FlagItem>)
    requires
        kinds_agree(its),
    ensures
        apply_items(f, its).parallel == (f.parallel || its.contains(FlagItem::Parallel)),
        forall|v: Seq<char>| #[trigger] its.contains(FlagItem::Watch(v)) ==> apply_items(f, its).watch == Some(v),
        (forall|v: Seq<char>| !#[trigger] its.contains(FlagItem::Watch(v))) ==> apply_items(f, its).watch == f.watch,
        forall|v: Seq<char>| #[trigger] its.contains(FlagItem::Ready(v)) ==> apply_items(f, its).ready == Some(v),
        (forall|v: Seq<char>| !#[trigger] its.contains(FlagItem::Ready(v))) ==> apply_items(f, its).ready == f.ready,
        forall|l: Seq<Seq<char>>| #[trigger] its.contains(FlagItem::Deps(l)) ==> apply_items(f, its).deps == l,
        (forall|l: Seq<Seq<char>>| !#[trigger] its.contains(FlagItem::Deps(l))) ==> apply_items(f, its).deps == f.deps,
        forall|l: Seq<Seq<char>>| #[trigger] its.contains(FlagItem::Args(l)) ==> apply_items(f, its).args == l,
        (forall|l: Seq<Seq<char>>| !#[trigger] its.contains(FlagItem::Args(l))) ==> apply_items(f, its).args == f.args,
    decreases its.len(),
{
    if its.len() > 0 {
        let rest = its.drop_first();
        let x = its[0];
        let g = apply_item(f, x);
        assert(kinds_agree(rest)) by {
            assert forall|j: int, k: int|
                0 <= j < rest.len() && 0 <= k < rest.len() && !different_flags(rest[j], rest[k]) implies rest[j]
                == rest[k] by {
                assert(rest[j] == its[j + 1]);
                assert(rest[k] == its[k + 1]);
            }
        }
        lemma_apply_items(g, rest);
        assert(apply_items(f, its) == apply_items(g, rest));
        assert forall|y: FlagItem| its.contains(y) <==> (y == x || rest.contains(y)) by {
            lemma_contains_drop_first(its, y);
        }
        // A flag in the rest of the same kind as the first is the first.
        assert forall|y: FlagItem| rest.contains(y) && !different_flags(x, y) implies y == x by {
            let i = choose|i: int| 0 <= i < rest.len() && rest[i] == y;
            assert(its[i + 1] == y);
            assert(its[0] == x);
        }
        assert(its.contains(x)) by {
            assert(its[0] == x);
        }
        if forall|v: Seq<char>| !#[trigger] its.contains(FlagItem::Watch(v)) {
            assert(!(x is Watch));
        }
        if forall|v: Seq<char>| !#[trigger] its.contains(FlagItem::Ready(v)) {
            assert(!(x is Ready));
        }
        match x {
            FlagItem::Parallel => {},
            FlagItem::Watch(v0) => {
                assert forall|v: Seq<char>| rest.contains(FlagItem::Watch(v)) implies v == v0 by {
                    assert(!different_flags(x, FlagItem::Watch(v)));
                }
            },
            FlagItem::Ready(v0) => {
                assert forall|v: Seq<char>| rest.contains(FlagItem::Ready(v)) implies v == v0 by {
                    assert(!different_flags(x, FlagItem::Ready(v)));
                }
            },
            FlagItem::Deps(l0) => {
                assert forall|l: Seq<Seq<char>>| rest.contains(FlagItem::Deps(l)) implies l == l0 by {
                    assert(!different_flags(x, FlagItem::Deps(l)));
                }
            },
            FlagItem::Args(l0) => {
                assert forall|l: Seq<Seq<char>>| rest.contains(FlagItem::Args(l)) implies l == l0 by {
                    assert(!different_flags(x, FlagItem::Args(l)));
                }
            },
        }
    }
}

/// Two lists of flags that hold the same flags, each with its kinds in agreement, set
/// the same flags.
proof fn lemma_apply_items_same(f: TaskFlagsView, a: Seq<FlagItem>, b: Seq<FlagItem>)
    requires
        kinds_agree(a),
        kinds_agree(b),
        forall|x: FlagItem| a.contains(x) <==> b.contains(x),
    ensures
        apply_items(f, a) == apply_items(f, b),
{
    lemma_apply_items(f, a);
    lemma_apply_items(f, b);
    let (p, q) = (apply_items(f, a), apply_items(f, b));
    if exists|v: Seq<char>| a.contains(FlagItem::Watch(v)) {
        let v = choose|v: Seq<char>| a.contains(FlagItem::Watch(v));
        assert(b.contains(FlagItem::Watch(v)));
    }
    if exists|v: Seq<char>| a.contains(FlagItem::Ready(v)) {
        let v = choose|v: Seq<char>| a.contains(FlagItem::Ready(v));
        assert(b.contains(FlagItem::Ready(v)));
    }
    if exists|l: Seq<Seq<char>>| a.contains(FlagItem::Deps(l)) {
        let l = choose|l: Seq<Seq<char>>| a.contains(FlagItem::Deps(l));
        assert(b.contains(FlagItem::Deps(l)));
    }
    if exists|l: Seq<Seq<char>>| a.contains(FlagItem::Args(l)) {
        let l = choose|l: Seq<Seq<char>>| a.contains(FlagItem::Args(l));
        assert(b.contains(FlagItem::Args(l)));
    }
    assert(p.parallel == q.parallel);
    assert(p.watch == q.watch);
    assert(p.ready == q.ready);
    assert(p.deps == q.deps);
    assert(p.args == q.args);
}

/// Reading runs that each spell one flag, one after the other, sets those flags in
/// turn and stops after the last run.
#[verifier::spinoff_prover]
proof fn lemma_header_flags_runs(
    pre: Seq<TokenView>,
    rs: Seq<Seq<TokenView>>,
    post: Seq<TokenView>,
    f: TaskFlagsView,
    s: Seq<char>,
)
    requires
        post.len() >= 2,
        forall|k: int| 0 <= k < rs.len() ==> reads_as_flag(#[trigger] rs[k], post, s),
    ensures
        header_flags(pre + rs.flatten() + post, pre.len() as int, f, s) == header_flags(
            pre + rs.flatten() + post,
            (pre.len() + rs.flatten().len()) as int,
            apply_items(f, rs.map_values(|r: Seq<TokenView>| run_item(r, post, s))),
            s,
        ),
    decreases rs.len(),
{
    let its = rs.map_values(|r: Seq<TokenView>| run_item(r, post, s));
    if rs.len() == 0 {
        assert(rs.flatten().len() == 0);
    } else {
        let r0 = rs[0];
        let rest = rs.drop_first();
        let t = pre + rs.flatten() + post;
        let p = pre.len() as int;
        let it0 = run_item(r0, post, s);
        assert(reads_as_flag(rs[0], post, s));
        assert(rs.flatten() == r0 + rest.flatten());
        let pre2 = pre + r0;
        assert(t =~= pre2 + rest.flatten() + post);
        assert(same_kinds(r0 + post, 0, t, p, r0.len() as int)) by {
            assert forall|i: int| 0 <= i < r0.len() implies (#[trigger] t[p + i]).kind == (r0
                + post)[0 + i].kind by {
                assert(t[p + i] == r0[i]);
            }
        }
        lemma_flag_item_shift(r0 + post, 0, t, p, s, s, it0, r0.len() as int);
        lemma_header_flags_unfold(t, p, f, s);
        assert forall|k: int| 0 <= k < rest.len() implies reads_as_flag(#[trigger] rest[k], post, s) by {
            assert(rest[k] == rs[k + 1]);
        }
        lemma_header_flags_runs(pre2, rest, post, apply_item(f, it0), s);
        assert(its.drop_first() =~= rest.map_values(|r: Seq<TokenView>| run_item(r, post, s)));
        assert(its[0] == it0);
    }
}

/// Any reordering of the flags of a task header changes nothing, as long as each flag
/// appears at most once: the header gives the same flags, and stops at the same token,
/// or fails the same way. The header is `pre`, then the runs of tokens that spell its
/// flags, one flag each, then the rest of the header `post`; the reordered header holds
/// the same runs in another order.
#[verifier::spinoff_prover]
pub proof fn law_flag_order_any(
    pre: Seq<TokenView>,
    runs: Seq<Seq<TokenView>>,
    reordered: Seq<Seq<TokenView>>,
    post: Seq<TokenView>,
    f: TaskFlagsView,
    s: Seq<char>,
)
    requires
        post.len() >= 2,
        reordered.to_multiset() == runs.to_multiset(),
        forall|k: int| 0 <= k < runs.len() ==> reads_as_flag(#[trigger] runs[k], post, s),
        forall|j: int, k: int|
            #![trigger runs[j], runs[k]]
            0 <= j < runs.len() && 0 <= k < runs.len() && j != k ==> different_flags(
                run_item(runs[j], post, s),
                run_item(runs[k], post, s),
            ),
    ensures
        header_flags(pre + reordered.flatten() + post, pre.len() as int, f, s) == header_flags(
            pre + runs.flatten() + post,
            pre.len() as int,
            f,
            s,
        ),
{
    broadcast use vstd::seq_lib::group_to_multiset_ensures;

    let t1 = pre + runs.flatten() + post;
    let t2 = pre + reordered.flatten() + post;
    assert forall|r: Seq<TokenView>| reordered.contains(r) <==> runs.contains(r) by {
        vstd::seq_lib::to_multiset_contains(reordered, r);
        vstd::seq_lib::to_multiset_contains(runs, r);
    }
    // Each reordered run is one of the runs.
    assert forall|k: int| 0 <= k < reordered.len() implies exists|j: int|
        0 <= j < runs.len() && runs[j] == #[trigger] reordered[k] by {
        assert(reordered.contains(reordered[k]));
    }
    assert forall|k: int| 0 <= k < reordered.len() implies reads_as_flag(#[trigger] reordered[k], post, s) by {
        let j = choose|j: int| 0 <= j < runs.len() && runs[j] == reordered[k];
        assert(reads_as_flag(runs[j], post, s));
    }
    lemma_header_flags_runs(pre, runs, post, f, s);
    lemma_header_flags_runs(pre, reordered, post, f, s);
    // Both headers are equally long.
    assert(commutative_foldl(add_len())) by {
        assert forall|x: Seq<TokenView>, y: Seq<TokenView>, v: int| #[trigger] add_len()(
            add_len()(v, x),
            y,
        ) == add_len()(add_len()(v, y), x) by {}
    }
    vstd::seq_lib::lemma_fold_left_permutation(runs, reordered, add_len(), 0int);
    lemma_flatten_len(runs);
    lemma_flatten_len(reordered);
    let e = (pre.len() + runs.flatten().len()) as int;
    assert(t1.len() == t2.len());
    // They set the same flags.
    let its1 = runs.map_values(|r: Seq<TokenView>| run_item(r, post, s));
    let its2 = reordered.map_values(|r: Seq<TokenView>| run_item(r, post, s));
    assert(kinds_agree(its1)) by {
        assert forall|j: int, k: int|
            0 <= j < its1.len() && 0 <= k < its1.len() && !different_flags(its1[j], its1[k]) implies its1[j]
            == its1[k] by {
            if j != k {
                assert(different_flags(run_item(runs[j], post, s), run_item(runs[k], post, s)));
            }
        }
    }
    assert(kinds_agree(its2)) by {
        assert forall|j: int, k: int|
            0 <= j < its2.len() && 0 <= k < its2.len() && !different_flags(its2[j], its2[k]) implies its2[j]
            == its2[k] by {
            let j2 = choose|i: int| 0 <= i < runs.len() && runs[i] == reordered[j];
            let k2 = choose|i: int| 0 <= i < runs.len() && runs[i] == reordered[k];
            if j2 != k2 {
                assert(different_flags(run_item(runs[j2], post, s), run_item(runs[k2], post, s)));
            }
        }
    }
    assert forall|x: FlagItem| its1.contains(x) <==> its2.contains(x) by {
        if its1.contains(x) {
            let i = choose|i: int| 0 <= i < its1.len() && its1[i] == x;
            assert(reordered.contains(runs[i]));
            let k = choose|k: int| 0 <= k < reordered.len() && reordered[k] == runs[i];
            assert(its2[k] == x);
        }
        if its2.contains(x) {
            let k = choose|k: int| 0 <= k < its2.len() && its2[k] == x;
            let i = choose|i: int| 0 <= i < runs.len() && runs[i] == reordered[k];
            assert(its1[i] == x);
        }
    }
    lemma_apply_items_same(f, its1, its2);
    let g = apply_items(f, its1);
    assert forall|i: int| e <= i < t1.len() implies #[trigger] t2[i] == t1[i] by {
        assert(t1[i] == post[i - e]);
        assert(t2[i] == post[i - e]);
    }
    lemma_header_flags_suffix(t1, t2, e, g, s);
}

} // verus!
