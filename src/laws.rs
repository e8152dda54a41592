use vstd::prelude::*;

use crate::uniq::{
    concat, groups, is_split_of, key, push_line, render, representatives, total_count, GroupModel,
};

verus! {

/// Every group holds at least one line, and no two adjacent groups have
/// equal keys: each group is a maximal run.
pub proof fn law_groups_are_maximal_runs(lines: Seq<Seq<char>>)
    ensures
        forall|i: int| 0 <= i < groups(lines).len() ==> #[trigger] groups(lines)[i].1 >= 1,
        forall|i: int|
            0 <= i < groups(lines).len() - 1 ==> key(#[trigger] groups(lines)[i].0) != key(
                groups(lines)[i + 1].0,
            ),
    decreases lines.len(),
{
    if lines.len() > 0 {
        law_groups_are_maximal_runs(lines.drop_last());
        let gs = groups(lines.drop_last());
        assert(groups(lines) == push_line(gs, lines.last()));
        if gs.len() > 0 && key(gs.last().0) == key(lines.last()) {
            assert forall|i: int| 0 <= i < groups(lines).len() - 1 implies key(
                #[trigger] groups(lines)[i].0,
            ) != key(groups(lines)[i + 1].0) by {
                assert(groups(lines)[i].0 == gs[i].0);
                assert(groups(lines)[i + 1].0 == gs[i + 1].0);
            }
        }
    }
}

/// The counts of all groups add up to the number of input lines.
pub proof fn law_counts_sum_to_lines(lines: Seq<Seq<char>>)
    ensures
        total_count(groups(lines)) == lines.len(),
    decreases lines.len(),
{
    if lines.len() > 0 {
        law_counts_sum_to_lines(lines.drop_last());
        let gs = groups(lines.drop_last());
        let x = lines.last();
        if gs.len() > 0 && key(gs.last().0) == key(x) {
            let ns = push_line(gs, x);
            assert(ns.drop_last() =~= gs.drop_last());
        } else {
            assert(gs.push((x, 1)).drop_last() =~= gs);
        }
    }
}

/// No input lines give no groups, and so no output in either mode.
pub proof fn law_empty_input(with_count: bool)
    ensures
        groups(Seq::<Seq<char>>::empty()) == Seq::<GroupModel>::empty(),
        render(groups(Seq::<Seq<char>>::empty()), with_count) == Seq::<char>::empty(),
{
}

/// A sequence of lines in which no two neighbours have equal keys is its own
/// grouping, every line alone in its group.
pub proof fn lemma_distinct_neighbours_are_groups(lines: Seq<Seq<char>>)
    requires
        forall|i: int| 0 <= i < lines.len() - 1 ==> key(#[trigger] lines[i]) != key(lines[i + 1]),
    ensures
        groups(lines) == lines.map_values(|l: Seq<char>| (l, 1nat)),
    decreases lines.len(),
{
    if lines.len() > 0 {
        let prev = lines.drop_last();
        assert forall|i: int| 0 <= i < prev.len() - 1 implies key(#[trigger] prev[i]) != key(
            prev[i + 1],
        ) by {
            assert(prev[i] == lines[i]);
            assert(prev[i + 1] == lines[i + 1]);
        }
        lemma_distinct_neighbours_are_groups(prev);
        let gs = groups(prev);
        if gs.len() > 0 {
            assert(gs.last().0 == lines[lines.len() - 2]);
        }
        assert(groups(lines) =~= lines.map_values(|l: Seq<char>| (l, 1nat)));
    }
}

/// Grouping the engine's own output again (representatives, shown without
/// counts) changes nothing: the representatives come back one per group, and
/// the text written is the same.
pub proof fn law_idempotent(lines: Seq<Seq<char>>)
    ensures
        representatives(groups(representatives(groups(lines)))) == representatives(groups(lines)),
        render(groups(representatives(groups(lines))), false) == render(groups(lines), false),
{
    let gs = groups(lines);
    let reps = representatives(gs);
    law_groups_are_maximal_runs(lines);
    assert forall|i: int| 0 <= i < reps.len() - 1 implies key(#[trigger] reps[i]) != key(
        reps[i + 1],
    ) by {
        assert(reps[i] == gs[i].0);
        assert(reps[i + 1] == gs[i + 1].0);
    }
    lemma_distinct_neighbours_are_groups(reps);
    let hs = groups(reps);
    assert(representatives(hs) =~= reps);
    lemma_render_plain_same(hs, gs);
}

proof fn lemma_render_plain_same(a: Seq<GroupModel>, b: Seq<GroupModel>)
    requires
        a.len() == b.len(),
        forall|i: int| 0 <= i < a.len() ==> (#[trigger] a[i]).0 == b[i].0 && a[i].1 >= 1 && b[i].1 >= 1,
    ensures
        render(a, false) == render(b, false),
    decreases a.len(),
{
    if a.len() > 0 {
        let a2 = a.drop_last();
        let b2 = b.drop_last();
        assert forall|i: int| 0 <= i < a2.len() implies (#[trigger] a2[i]).0 == b2[i].0 && a2[i].1 >= 1
            && b2[i].1 >= 1 by {
            assert(a2[i] == a[i]);
            assert(b2[i] == b[i]);
        }
        lemma_render_plain_same(a2, b2);
        assert(a.last() == a[a.len() - 1]);
    }
}


/// The keys of the lines that a sequence of groups stands for: each group's
/// key repeated as many times as its count.
pub open spec fn expand_keys(gs: Seq<GroupModel>) -> Seq<Seq<char>>
    decreases gs.len(),
{
    if gs.len() == 0 {
        Seq::empty()
    } else {
        expand_keys(gs.drop_last()) + Seq::new(gs.last().1, |_i: int| key(gs.last().0))
    }
}

/// Expanding each group into its count of copies gives back the keys of the
/// input lines, in order: the groups are exactly the runs of the input.
pub proof fn law_groups_expand_to_input(lines: Seq<Seq<char>>)
    ensures
        expand_keys(groups(lines)) == lines.map_values(|l: Seq<char>| key(l)),
    decreases lines.len(),
{
    if lines.len() > 0 {
        let prev = lines.drop_last();
        law_groups_expand_to_input(prev);
        let gs = groups(prev);
        let x = lines.last();
        let ns = push_line(gs, x);
        if gs.len() > 0 && key(gs.last().0) == key(x) {
            assert(ns.drop_last() =~= gs.drop_last());
            assert(ns.last() == (gs.last().0, gs.last().1 + 1));
            assert(Seq::new(ns.last().1, |_i: int| key(ns.last().0)) =~= Seq::new(
                gs.last().1,
                |_i: int| key(gs.last().0),
            ).push(key(x)));
            assert(expand_keys(ns) =~= expand_keys(gs).push(key(x)));
        } else {
            assert(ns.drop_last() =~= gs);
            assert(Seq::new(1, |_i: int| key(x)) =~= seq![key(x)]);
            assert(expand_keys(ns) =~= expand_keys(gs).push(key(x)));
        }
        assert(lines.map_values(|l: Seq<char>| key(l)) =~= prev.map_values(|l: Seq<char>| key(l)).push(
            key(x),
        ));
        assert(groups(lines) == ns);
    }
}


proof fn lemma_concat_front(lines: Seq<Seq<char>>)
    requires
        lines.len() > 0,
    ensures
        concat(lines) == lines[0] + concat(lines.drop_first()),
    decreases lines.len(),
{
    if lines.len() == 1 {
        assert(lines.drop_first() =~= Seq::<Seq<char>>::empty());
        assert(lines.drop_last() =~= Seq::<Seq<char>>::empty());
        assert(concat(lines) =~= lines[0] + concat(lines.drop_first()));
    } else {
        let prev = lines.drop_last();
        lemma_concat_front(prev);
        assert(prev.drop_first() =~= lines.drop_first().drop_last());
        assert(lines.drop_first().last() == lines.last());
        assert(concat(lines) =~= lines[0] + concat(lines.drop_first()));
    }
}

proof fn lemma_split_rest(lines: Seq<Seq<char>>, text: Seq<char>)
    requires
        lines.len() > 0,
        is_split_of(lines, text),
    ensures
        is_split_of(lines.drop_first(), text.skip(lines[0].len() as int)),
        text.take(lines[0].len() as int) == lines[0],
{
    lemma_concat_front(lines);
    let rest = lines.drop_first();
    assert(text.skip(lines[0].len() as int) =~= concat(rest));
    assert(text.take(lines[0].len() as int) =~= lines[0]);
    assert forall|i: int| 0 <= i < rest.len() implies (#[trigger] rest[i]).len() > 0 by {
        assert(rest[i] == lines[i + 1]);
    }
    assert forall|i: int, j: int| 0 <= i < rest.len() && 0 <= j < rest[i].len() - 1 implies #[trigger] rest[i][j]
        != '\n' by {
        assert(rest[i] == lines[i + 1]);
        assert(lines[i + 1][j] != '\n');
    }
    assert forall|i: int| 0 <= i < rest.len() - 1 implies (#[trigger] rest[i]).last() == '\n' by {
        assert(rest[i] == lines[i + 1]);
    }
}

proof fn lemma_first_lines_agree(a: Seq<Seq<char>>, b: Seq<Seq<char>>, text: Seq<char>)
    requires
        a.len() > 0,
        b.len() > 0,
        a[0].len() > 0,
        b[0].len() > 0,
        text.take(a[0].len() as int) == a[0],
        text.take(b[0].len() as int) == b[0],
        a.len() > 1 ==> a[0].last() == '\n',
        b.len() > 1 ==> b[0].last() == '\n',
        a.len() == 1 ==> a[0].len() == text.len(),
        b.len() == 1 ==> b[0].len() == text.len(),
        a[0].len() <= text.len(),
        b[0].len() <= text.len(),
        forall|j: int| 0 <= j < a[0].len() - 1 ==> #[trigger] a[0][j] != '\n',
        forall|j: int| 0 <= j < b[0].len() - 1 ==> #[trigger] b[0][j] != '\n',
    ensures
        a[0] == b[0],
{
    let la = a[0].len() as int;
    let lb = b[0].len() as int;
    if la < lb {
        assert(text.take(lb)[la - 1] == text[la - 1]);
        assert(text.take(la)[la - 1] == text[la - 1]);
        assert(b[0][la - 1] != '\n');
    } else if lb < la {
        assert(text.take(la)[lb - 1] == text[lb - 1]);
        assert(text.take(lb)[lb - 1] == text[lb - 1]);
        assert(a[0][lb - 1] != '\n');
    }
}

/// A text has exactly one split into lines: two splits of the same text are
/// the same sequence of lines.
pub proof fn law_split_is_unique(a: Seq<Seq<char>>, b: Seq<Seq<char>>, text: Seq<char>)
    requires
        is_split_of(a, text),
        is_split_of(b, text),
    ensures
        a == b,
    decreases text.len(),
{
    if a.len() == 0 || b.len() == 0 {
        if a.len() > 0 {
            lemma_concat_front(a);
            assert(a[0].len() > 0);
        }
        if b.len() > 0 {
            lemma_concat_front(b);
            assert(b[0].len() > 0);
        }
        assert(a =~= b);
    } else {
        lemma_split_rest(a, text);
        lemma_split_rest(b, text);
        lemma_concat_front(a);
        lemma_concat_front(b);
        let la = a[0].len() as int;
        let lb = b[0].len() as int;
        assert(a[0].len() > 0);
        assert(b[0].len() > 0);
        if a.len() == 1 {
            assert(a.drop_first() =~= Seq::<Seq<char>>::empty());
        }
        if b.len() == 1 {
            assert(b.drop_first() =~= Seq::<Seq<char>>::empty());
        }
        assert(forall|j: int| 0 <= j < a[0].len() - 1 ==> #[trigger] a[0][j] != '\n');
        assert(forall|j: int| 0 <= j < b[0].len() - 1 ==> #[trigger] b[0][j] != '\n');
        lemma_first_lines_agree(a, b, text);
        law_split_is_unique(a.drop_first(), b.drop_first(), text.skip(la));
        assert(a =~= seq![a[0]] + a.drop_first());
        assert(b =~= seq![b[0]] + b.drop_first());
    }
}

/// A line as a split can hold it: non-empty, with a newline only at its end.
pub open spec fn is_line(l: Seq<char>) -> bool {
    l.len() > 0 && forall|j: int| 0 <= j < l.len() - 1 ==> #[trigger] l[j] != '\n'
}

proof fn lemma_representatives_shape(lines: Seq<Seq<char>>)
    requires
        forall|i: int| 0 <= i < lines.len() ==> is_line(#[trigger] lines[i]),
        forall|i: int| 0 <= i < lines.len() - 1 ==> (#[trigger] lines[i]).last() == '\n',
    ensures
        forall|i: int| 0 <= i < groups(lines).len() ==> is_line(#[trigger] groups(lines)[i].0),
        forall|i: int|
            0 <= i < groups(lines).len() - 1 ==> (#[trigger] groups(lines)[i]).0.last() == '\n',
        (forall|i: int| 0 <= i < lines.len() ==> (#[trigger] lines[i]).last() == '\n') ==> (forall|
            i: int,
        | 0 <= i < groups(lines).len() ==> (#[trigger] groups(lines)[i]).0.last() == '\n'),
    decreases lines.len(),
{
    if lines.len() > 0 {
        let prev = lines.drop_last();
        assert forall|i: int| 0 <= i < prev.len() implies is_line(#[trigger] prev[i]) by {
            assert(prev[i] == lines[i]);
        }
        assert forall|i: int| 0 <= i < prev.len() implies (#[trigger] prev[i]).last() == '\n' by {
            assert(prev[i] == lines[i]);
        }
        lemma_representatives_shape(prev);
        let gs = groups(prev);
        let x = lines.last();
        assert(is_line(lines[lines.len() - 1]));
        assert(groups(lines) == push_line(gs, x));
        if gs.len() > 0 && key(gs.last().0) == key(x) {
            let ns = push_line(gs, x);
            assert forall|i: int| 0 <= i < ns.len() implies ns[i].0 == gs[i].0 by {}
        }
    }
}

proof fn lemma_render_plain_is_concat(gs: Seq<GroupModel>)
    requires
        forall|i: int| 0 <= i < gs.len() ==> (#[trigger] gs[i]).1 >= 1,
    ensures
        render(gs, false) == concat(representatives(gs)),
    decreases gs.len(),
{
    if gs.len() > 0 {
        let prev = gs.drop_last();
        assert forall|i: int| 0 <= i < prev.len() implies (#[trigger] prev[i]).1 >= 1 by {
            assert(prev[i] == gs[i]);
        }
        lemma_render_plain_is_concat(prev);
        assert(representatives(gs).drop_last() =~= representatives(prev));
    }
}

/// Without counts, the engine's output text splits into exactly the
/// representatives of the groups, and running the engine on that text writes
/// it again unchanged.
pub proof fn law_output_is_fixed_point(lines: Seq<Seq<char>>, text: Seq<char>)
    requires
        is_split_of(lines, text),
    ensures
        is_split_of(representatives(groups(lines)), render(groups(lines), false)),
        render(groups(representatives(groups(lines))), false) == render(groups(lines), false),
{
    let gs = groups(lines);
    let reps = representatives(gs);
    assert forall|i: int| 0 <= i < lines.len() implies is_line(#[trigger] lines[i]) by {}
    lemma_representatives_shape(lines);
    law_groups_are_maximal_runs(lines);
    lemma_render_plain_is_concat(gs);
    assert forall|i: int| 0 <= i < reps.len() implies (#[trigger] reps[i]).len() > 0 by {
        assert(reps[i] == gs[i].0);
        assert(is_line(gs[i].0));
    }
    assert forall|i: int, j: int| 0 <= i < reps.len() && 0 <= j < reps[i].len() - 1 implies #[trigger] reps[i][j]
        != '\n' by {
        assert(reps[i] == gs[i].0);
        assert(is_line(gs[i].0));
    }
    assert forall|i: int| 0 <= i < reps.len() - 1 implies (#[trigger] reps[i]).last() == '\n' by {
        assert(reps[i] == gs[i].0);
    }
    law_idempotent(lines);
}

} // verus!
