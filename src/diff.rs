use vstd::prelude::*;

verus! {

/// The classification of a run of units in a diff.
#[derive(Clone, Copy, Debug, PartialEq, Eq, Structural)]
pub enum ChangeTag {
    /// Units present in both inputs.
    Equal,
    /// Units present only in the left input.
    Delete,
    /// Units present only in the right input.
    Insert,
}

/// A maximal run of units sharing one tag.
#[derive(Clone, Debug, PartialEq, Eq)]
pub struct Run {
    pub tag: ChangeTag,
    pub units: Vec<char>,
}

impl Run {
    pub open spec fn view(&self) -> (ChangeTag, Seq<char>) {
        (self.tag, self.units@)
    }
}

/// The abstract value of a list of runs.
pub open spec fn runs_view(runs: Seq<Run>) -> Seq<(ChangeTag, Seq<char>)> {
    runs.map_values(|r: Run| r@)
}

// ---------------------------------------------------------------------------
// Unit-level edit scripts

/// What a single tagged unit contributes to the left input.
pub open spec fn op_left(o: (ChangeTag, char)) -> Seq<char> {
    if o.0 != ChangeTag::Insert { seq![o.1] } else { seq![] }
}

/// What a single tagged unit contributes to the right input.
pub open spec fn op_right(o: (ChangeTag, char)) -> Seq<char> {
    if o.0 != ChangeTag::Delete { seq![o.1] } else { seq![] }
}

/// The left input that an edit script reads.
pub open spec fn ops_left(ops: Seq<(ChangeTag, char)>) -> Seq<char>
    decreases ops.len(),
{
    if ops.len() == 0 { seq![] } else { op_left(ops[0]) + ops_left(ops.skip(1)) }
}

/// The right input that an edit script writes.
pub open spec fn ops_right(ops: Seq<(ChangeTag, char)>) -> Seq<char>
    decreases ops.len(),
{
    if ops.len() == 0 { seq![] } else { op_right(ops[0]) + ops_right(ops.skip(1)) }
}

/// The number of insertions and deletions in an edit script.
pub open spec fn ops_cost(ops: Seq<(ChangeTag, char)>) -> nat
    decreases ops.len(),
{
    if ops.len() == 0 {
        0
    } else {
        (if ops[0].0 == ChangeTag::Equal { 0nat } else { 1nat }) + ops_cost(ops.skip(1))
    }
}

/// The smaller of two naturals.
pub open spec fn min_nat(x: nat, y: nat) -> nat {
    if x <= y { x } else { y }
}

/// The least number of single-unit insertions and deletions that turn `a`
/// into `b` (no substitutions).
pub open spec fn edit_distance(a: Seq<char>, b: Seq<char>) -> nat
    decreases a.len() + b.len(),
{
    if a.len() == 0 {
        b.len()
    } else if b.len() == 0 {
        a.len()
    } else {
        let step = min_nat(edit_distance(a.skip(1), b) + 1, edit_distance(a, b.skip(1)) + 1);
        if a[0] == b[0] {
            min_nat(edit_distance(a.skip(1), b.skip(1)), step)
        } else {
            step
        }
    }
}

/// The shortest edit script chosen for `a` and `b`, read from the front:
/// a common first unit is kept where that stays shortest, otherwise the
/// first unit of `a` is deleted where that stays shortest, otherwise the
/// first unit of `b` is inserted.
pub open spec fn script(a: Seq<char>, b: Seq<char>) -> Seq<(ChangeTag, char)>
    decreases a.len() + b.len(),
{
    if a.len() == 0 && b.len() == 0 {
        seq![]
    } else if a.len() > 0 && b.len() > 0 && a[0] == b[0] && edit_distance(a.skip(1), b.skip(1))
        == edit_distance(a, b) {
        seq![(ChangeTag::Equal, a[0])] + script(a.skip(1), b.skip(1))
    } else if a.len() > 0 && (b.len() == 0 || edit_distance(a.skip(1), b) + 1 == edit_distance(
        a,
        b,
    )) {
        seq![(ChangeTag::Delete, a[0])] + script(a.skip(1), b)
    } else {
        seq![(ChangeTag::Insert, b[0])] + script(a, b.skip(1))
    }
}

/// Every unit of `s`, tagged with `t`.
pub open spec fn tagged(t: ChangeTag, s: Seq<char>) -> Seq<(ChangeTag, char)> {
    s.map_values(|c: char| (t, c))
}

// ---------------------------------------------------------------------------
// Runs

/// Merges consecutive units of an edit script that share a tag into runs.
pub open spec fn group(ops: Seq<(ChangeTag, char)>) -> Seq<(ChangeTag, Seq<char>)>
    decreases ops.len(),
{
    if ops.len() == 0 {
        seq![]
    } else {
        let g = group(ops.drop_last());
        let o = ops.last();
        if g.len() > 0 && g.last().0 == o.0 {
            g.update(g.len() - 1, (o.0, g.last().1.push(o.1)))
        } else {
            g.push((o.0, seq![o.1]))
        }
    }
}

/// What a run contributes to the left input.
pub open spec fn run_left(r: (ChangeTag, Seq<char>)) -> Seq<char> {
    if r.0 != ChangeTag::Insert { r.1 } else { seq![] }
}

/// What a run contributes to the right input.
pub open spec fn run_right(r: (ChangeTag, Seq<char>)) -> Seq<char> {
    if r.0 != ChangeTag::Delete { r.1 } else { seq![] }
}

/// The units of the runs tagged `Equal` or `Delete`, in order.
pub open spec fn left_text(runs: Seq<(ChangeTag, Seq<char>)>) -> Seq<char>
    decreases runs.len(),
{
    if runs.len() == 0 { seq![] } else { left_text(runs.drop_last()) + run_left(runs.last()) }
}

/// The units of the runs tagged `Equal` or `Insert`, in order.
pub open spec fn right_text(runs: Seq<(ChangeTag, Seq<char>)>) -> Seq<char>
    decreases runs.len(),
{
    if runs.len() == 0 { seq![] } else { right_text(runs.drop_last()) + run_right(runs.last()) }
}

/// The number of units in runs tagged `Delete` or `Insert`.
pub open spec fn changed_units(runs: Seq<(ChangeTag, Seq<char>)>) -> nat
    decreases runs.len(),
{
    if runs.len() == 0 {
        0
    } else {
        changed_units(runs.drop_last()) + if runs.last().0 == ChangeTag::Equal {
            0nat
        } else {
            runs.last().1.len()
        }
    }
}

/// No run is empty and no two adjacent runs share a tag.
pub open spec fn is_compact(runs: Seq<(ChangeTag, Seq<char>)>) -> bool {
    &&& forall|i: int| 0 <= i < runs.len() ==> #[trigger] runs[i].1.len() > 0
    &&& forall|i: int| 0 <= i < runs.len() - 1 ==> #[trigger] runs[i].0 != runs[i + 1].0
}

// ---------------------------------------------------------------------------
// Lemmas on the script

/// Deleting all of `a` and inserting all of `b` bounds the edit distance.
pub proof fn lemma_edit_distance_bound(a: Seq<char>, b: Seq<char>)
    ensures
        edit_distance(a, b) <= a.len() + b.len(),
    decreases a.len() + b.len(),
{
    if a.len() > 0 && b.len() > 0 {
        lemma_edit_distance_bound(a.skip(1), b);
    }
}

/// The chosen script reads `a`, writes `b`, and costs exactly the edit
/// distance between them.
pub proof fn lemma_script_sound(a: Seq<char>, b: Seq<char>)
    ensures
        ops_left(script(a, b)) == a,
        ops_right(script(a, b)) == b,
        ops_cost(script(a, b)) == edit_distance(a, b),
    decreases a.len() + b.len(),
{
    let s = script(a, b);
    if a.len() == 0 && b.len() == 0 {
    } else if a.len() > 0 && b.len() > 0 && a[0] == b[0] && edit_distance(a.skip(1), b.skip(1))
        == edit_distance(a, b) {
        lemma_script_sound(a.skip(1), b.skip(1));
        assert(s.skip(1) =~= script(a.skip(1), b.skip(1)));
        assert(seq![a[0]] + a.skip(1) =~= a);
        assert(seq![b[0]] + b.skip(1) =~= b);
    } else if a.len() > 0 && (b.len() == 0 || edit_distance(a.skip(1), b) + 1 == edit_distance(
        a,
        b,
    )) {
        lemma_script_sound(a.skip(1), b);
        assert(s.skip(1) =~= script(a.skip(1), b));
        assert(seq![a[0]] + a.skip(1) =~= a);
        assert(seq![] + b =~= b);
    } else {
        lemma_script_sound(a, b.skip(1));
        assert(s.skip(1) =~= script(a, b.skip(1)));
        assert(seq![] + a =~= a);
        assert(seq![b[0]] + b.skip(1) =~= b);
    }
}

/// Reading an edit script up to its last unit, then that unit.
proof fn lemma_ops_last(ops: Seq<(ChangeTag, char)>)
    requires
        ops.len() > 0,
    ensures
        ops_left(ops) == ops_left(ops.drop_last()) + op_left(ops.last()),
        ops_right(ops) == ops_right(ops.drop_last()) + op_right(ops.last()),
        ops_cost(ops) == ops_cost(ops.drop_last()) + if ops.last().0 == ChangeTag::Equal {
            0nat
        } else {
            1nat
        },
{
    let o = ops.last();
    assert(ops =~= ops.drop_last() + seq![o]);
    lemma_ops_concat(ops.drop_last(), seq![o]);
    let single = seq![o];
    let rest = single.skip(1);
    assert(rest.len() == 0);
    assert(single[0] == o);
    assert(ops_left(rest) =~= Seq::<char>::empty());
    assert(ops_right(rest) =~= Seq::<char>::empty());
    assert(ops_left(single) == op_left(o) + ops_left(rest));
    assert(ops_right(single) == op_right(o) + ops_right(rest));
    assert(ops_left(single) =~= op_left(o));
    assert(ops_right(single) =~= op_right(o));
    assert(ops_cost(rest) == 0);
    assert(ops_cost(single) == (if o.0 == ChangeTag::Equal { 0nat } else { 1nat }) + ops_cost(
        rest,
    ));
}

// ---------------------------------------------------------------------------
// Lemmas on grouping

/// Grouping keeps the units of both sides and the number of changed units,
/// and yields compact runs.
pub proof fn lemma_group_sound(ops: Seq<(ChangeTag, char)>)
    ensures
        left_text(group(ops)) == ops_left(ops),
        right_text(group(ops)) == ops_right(ops),
        changed_units(group(ops)) == ops_cost(ops),
        is_compact(group(ops)),
    decreases ops.len(),
{
    if ops.len() > 0 {
        let p = ops.drop_last();
        let g = group(p);
        let o = ops.last();
        lemma_group_sound(p);
        lemma_ops_last(ops);
        if g.len() > 0 && g.last().0 == o.0 {
            let h = g.update(g.len() - 1, (o.0, g.last().1.push(o.1)));
            assert(h.drop_last() =~= g.drop_last());
            assert(h.last() == (o.0, g.last().1.push(o.1)));
            assert(run_left(h.last()) =~= run_left(g.last()) + op_left(o));
            assert(run_right(h.last()) =~= run_right(g.last()) + op_right(o));
            assert(left_text(h) =~= left_text(g) + op_left(o));
            assert(right_text(h) =~= right_text(g) + op_right(o));
            assert forall|i: int| 0 <= i < h.len() - 1 implies #[trigger] h[i].0 != h[i + 1].0 by {
                assert(g[i].0 != g[i + 1].0);
            }
            assert forall|i: int| 0 <= i < h.len() implies #[trigger] h[i].1.len() > 0 by {
                if i < h.len() - 1 {
                    assert(g[i].1.len() > 0);
                }
            }
        } else {
            let h = g.push((o.0, seq![o.1]));
            assert(h.drop_last() =~= g);
            assert(left_text(h) =~= left_text(g) + op_left(o));
            assert(right_text(h) =~= right_text(g) + op_right(o));
            assert forall|i: int| 0 <= i < h.len() - 1 implies #[trigger] h[i].0 != h[i + 1].0 by {
                if i < g.len() - 1 {
                    assert(g[i].0 != g[i + 1].0);
                }
            }
            assert forall|i: int| 0 <= i < h.len() implies #[trigger] h[i].1.len() > 0 by {
                if i < g.len() {
                    assert(g[i].1.len() > 0);
                }
            }
        }
    }
}

// ---------------------------------------------------------------------------
// Scripts of a single tag

proof fn lemma_tagged_step(t: ChangeTag, s: Seq<char>)
    requires
        s.len() > 0,
    ensures
        tagged(t, s).drop_last() == tagged(t, s.drop_last()),
        tagged(t, s).last() == (t, s.last()),
        tagged(t, s).len() == s.len(),
{
    assert(tagged(t, s).drop_last() =~= tagged(t, s.drop_last()));
}

proof fn lemma_tagged_first(t: ChangeTag, s: Seq<char>)
    requires
        s.len() > 0,
    ensures
        tagged(t, s) == seq![(t, s[0])] + tagged(t, s.skip(1)),
{
    assert(tagged(t, s) =~= seq![(t, s[0])] + tagged(t, s.skip(1)));
}

proof fn lemma_edit_distance_self(a: Seq<char>)
    ensures
        edit_distance(a, a) == 0,
    decreases a.len(),
{
    if a.len() > 0 {
        lemma_edit_distance_self(a.skip(1));
    }
}

proof fn lemma_script_self(a: Seq<char>)
    ensures
        script(a, a) == tagged(ChangeTag::Equal, a),
    decreases a.len(),
{
    if a.len() == 0 {
        assert(tagged(ChangeTag::Equal, a) =~= seq![]);
    } else {
        lemma_edit_distance_self(a);
        lemma_edit_distance_self(a.skip(1));
        lemma_script_self(a.skip(1));
        lemma_tagged_first(ChangeTag::Equal, a);
    }
}

proof fn lemma_script_delete_all(a: Seq<char>)
    ensures
        script(a, seq![]) == tagged(ChangeTag::Delete, a),
    decreases a.len(),
{
    if a.len() == 0 {
        assert(tagged(ChangeTag::Delete, a) =~= seq![]);
    } else {
        lemma_script_delete_all(a.skip(1));
        lemma_tagged_first(ChangeTag::Delete, a);
    }
}

proof fn lemma_script_insert_all(b: Seq<char>)
    ensures
        script(seq![], b) == tagged(ChangeTag::Insert, b),
    decreases b.len(),
{
    if b.len() == 0 {
        assert(tagged(ChangeTag::Insert, b) =~= seq![]);
    } else {
        lemma_script_insert_all(b.skip(1));
        lemma_tagged_first(ChangeTag::Insert, b);
    }
}

proof fn lemma_group_tagged(t: ChangeTag, s: Seq<char>)
    ensures
        group(tagged(t, s)) == if s.len() == 0 {
            seq![]
        } else {
            seq![(t, s)]
        },
    decreases s.len(),
{
    if s.len() == 0 {
        assert(tagged(t, s) =~= seq![]);
    } else {
        lemma_tagged_step(t, s);
        lemma_group_tagged(t, s.drop_last());
        if s.len() == 1 {
            assert(s =~= seq![s.last()]);
        } else {
            assert(s.drop_last().push(s.last()) =~= s);
            assert(seq![(t, s.drop_last())].update(0, (t, s.drop_last().push(s.last())))
                =~= seq![(t, s)]);
        }
    }
}

/// Diffing a sequence against itself gives a single `Equal` run holding all
/// of it, or no run at all when it is empty.
pub proof fn lemma_diff_self(a: Seq<char>)
    ensures
        group(script(a, a)) == if a.len() == 0 {
            seq![]
        } else {
            seq![(ChangeTag::Equal, a)]
        },
{
    lemma_script_self(a);
    lemma_group_tagged(ChangeTag::Equal, a);
}

/// Diffing against an empty sequence gives a single `Delete` run holding
/// all of the left side; diffing an empty sequence gives a single `Insert`
/// run holding all of the right side; two empty sequences give no run.
pub proof fn lemma_diff_with_empty(a: Seq<char>)
    ensures
        group(script(a, seq![])) == if a.len() == 0 {
            seq![]
        } else {
            seq![(ChangeTag::Delete, a)]
        },
        group(script(seq![], a)) == if a.len() == 0 {
            seq![]
        } else {
            seq![(ChangeTag::Insert, a)]
        },
{
    lemma_script_delete_all(a);
    lemma_group_tagged(ChangeTag::Delete, a);
    lemma_script_insert_all(a);
    lemma_group_tagged(ChangeTag::Insert, a);
}

// ---------------------------------------------------------------------------
// Minimality

/// No edit script costs less than the edit distance between the sequence it
/// reads and the sequence it writes.
pub proof fn lemma_script_cost_at_least_distance(ops: Seq<(ChangeTag, char)>)
    ensures
        ops_cost(ops) >= edit_distance(ops_left(ops), ops_right(ops)),
    decreases ops.len(),
{
    if ops.len() > 0 {
        let p = ops.skip(1);
        let o = ops[0];
        lemma_script_cost_at_least_distance(p);
        let a = ops_left(ops);
        let b = ops_right(ops);
        let a0 = ops_left(p);
        let b0 = ops_right(p);
        if o.0 == ChangeTag::Equal {
            assert(a.skip(1) =~= a0);
            assert(b.skip(1) =~= b0);
        } else if o.0 == ChangeTag::Delete {
            assert(a.skip(1) =~= a0);
            assert(b =~= b0);
        } else {
            assert(a =~= a0);
            assert(b.skip(1) =~= b0);
        }
    }
}

/// Every unit of a list of runs, tagged with its run's tag.
pub open spec fn unit_ops(runs: Seq<(ChangeTag, Seq<char>)>) -> Seq<(ChangeTag, char)>
    decreases runs.len(),
{
    if runs.len() == 0 {
        seq![]
    } else {
        unit_ops(runs.drop_last()) + tagged(runs.last().0, runs.last().1)
    }
}

proof fn lemma_ops_concat(x: Seq<(ChangeTag, char)>, y: Seq<(ChangeTag, char)>)
    ensures
        ops_left(x + y) == ops_left(x) + ops_left(y),
        ops_right(x + y) == ops_right(x) + ops_right(y),
        ops_cost(x + y) == ops_cost(x) + ops_cost(y),
    decreases x.len(),
{
    if x.len() == 0 {
        assert(x + y =~= y);
        assert(ops_left(x) + ops_left(y) =~= ops_left(y));
        assert(ops_right(x) + ops_right(y) =~= ops_right(y));
    } else {
        lemma_ops_concat(x.skip(1), y);
        assert((x + y).skip(1) =~= x.skip(1) + y);
        assert((x + y)[0] == x[0]);
        assert(ops_left(x + y) =~= ops_left(x) + ops_left(y));
        assert(ops_right(x + y) =~= ops_right(x) + ops_right(y));
    }
}

proof fn lemma_ops_tagged(t: ChangeTag, s: Seq<char>)
    ensures
        ops_left(tagged(t, s)) == run_left((t, s)),
        ops_right(tagged(t, s)) == run_right((t, s)),
        ops_cost(tagged(t, s)) == if t == ChangeTag::Equal {
            0
        } else {
            s.len()
        },
    decreases s.len(),
{
    if s.len() == 0 {
        assert(run_left((t, s)) =~= seq![]);
        assert(run_right((t, s)) =~= seq![]);
    } else {
        lemma_tagged_first(t, s);
        lemma_ops_tagged(t, s.skip(1));
        assert(tagged(t, s).skip(1) =~= tagged(t, s.skip(1)));
        assert(ops_left(tagged(t, s)) =~= run_left((t, s)));
        assert(ops_right(tagged(t, s)) =~= run_right((t, s)));
    }
}

proof fn lemma_unit_ops(runs: Seq<(ChangeTag, Seq<char>)>)
    ensures
        ops_left(unit_ops(runs)) == left_text(runs),
        ops_right(unit_ops(runs)) == right_text(runs),
        ops_cost(unit_ops(runs)) == changed_units(runs),
    decreases runs.len(),
{
    if runs.len() > 0 {
        let r = runs.last();
        lemma_unit_ops(runs.drop_last());
        lemma_ops_concat(unit_ops(runs.drop_last()), tagged(r.0, r.1));
        lemma_ops_tagged(r.0, r.1);
    }
}

/// However a list of runs aligns the sequence it spells on the left with the
/// one it spells on the right, it changes at least as many units as the
/// edit distance between them; the runs that `diff` returns change exactly
/// that many.
pub proof fn lemma_changed_units_at_least_distance(runs: Seq<(ChangeTag, Seq<char>)>)
    ensures
        changed_units(runs) >= edit_distance(left_text(runs), right_text(runs)),
{
    lemma_unit_ops(runs);
    lemma_script_cost_at_least_distance(unit_ops(runs));
}

// ---------------------------------------------------------------------------
// Executable engine

/// An edit distance, or `w + 1` for any distance above `w`.
pub open spec fn capped(d: nat, w: nat) -> nat {
    if d <= w { d } else { w + 1 }
}

/// The last `k` units of `s`.
pub open spec fn suffix(s: Seq<char>, k: int) -> Seq<char> {
    s.skip(s.len() - k)
}

/// Rows of a band of the table of suffix edit distances: entry `[i][t]`
/// holds the capped distance between the last `i` units of `a` and the
/// last `i + t - w` units of `b`, wherever `b` has that many.
pub open spec fn is_band_table(table: Seq<Vec<usize>>, a: Seq<char>, b: Seq<char>, w: nat) -> bool {
    &&& table.len() <= a.len() + 1
    &&& forall|i: int| 0 <= i < table.len() ==> (#[trigger] table[i])@.len() == 2 * w + 1
    &&& forall|i: int, t: int|
        0 <= i < table.len() && 0 <= t <= 2 * w && 0 <= i + t - w <= b.len() ==> (
        #[trigger] table[i]@[t]) == capped(edit_distance(suffix(a, i), suffix(b, i + t - w)), w)
}

proof fn lemma_edit_distance_gap(a: Seq<char>, b: Seq<char>)
    ensures
        edit_distance(a, b) >= a.len() - b.len(),
        edit_distance(a, b) >= b.len() - a.len(),
    decreases a.len() + b.len(),
{
    if a.len() > 0 && b.len() > 0 {
        lemma_edit_distance_gap(a.skip(1), b);
        lemma_edit_distance_gap(a, b.skip(1));
        lemma_edit_distance_gap(a.skip(1), b.skip(1));
    }
}

proof fn lemma_suffix_step(s: Seq<char>, k: int)
    requires
        0 < k <= s.len(),
    ensures
        suffix(s, k).len() == k,
        suffix(s, k)[0] == s[s.len() - k],
        suffix(s, k).skip(1) == suffix(s, k - 1),
{
    assert(suffix(s, k).skip(1) =~= suffix(s, k - 1));
}

/// The capped distance between the last `i` units of `a` and the last `j`
/// units of `b`; outside the band it is above `w` in any case.
fn band_cell(
    table: &Vec<Vec<usize>>,
    a: Ghost<Seq<char>>,
    b: Ghost<Seq<char>>,
    w: usize,
    i: usize,
    j: usize,
) -> (r: usize)
    requires
        is_band_table(table@, a@, b@, w as nat),
        a@.len() + b@.len() < usize::MAX / 4,
        w <= a@.len() + b@.len(),
        i < table.len(),
        j <= b@.len(),
    ensures
        r == capped(edit_distance(suffix(a@, i as int), suffix(b@, j as int)), w as nat),
{
    if j + w >= i && j <= i + w {
        let t = j + w - i;
        assert(i + t - w == j);
        table[i][t]
    } else {
        proof {
            lemma_edit_distance_gap(suffix(a@, i as int), suffix(b@, j as int));
        }
        w + 1
    }
}

/// The rows of the band of half-width `w` around the main diagonal of the
/// table of suffix edit distances. Time and memory are proportional to the
/// length of `left` times `w`.
fn band_table(left: &Vec<char>, right: &Vec<char>, w: usize) -> (table: Vec<Vec<usize>>)
    requires
        left@.len() + right@.len() < usize::MAX / 4,
        w <= left@.len() + right@.len(),
    ensures
        table.len() == left@.len() + 1,
        is_band_table(table@, left@, right@, w as nat),
{
    let n = left.len();
    let m = right.len();
    let ghost a = left@;
    let ghost b = right@;
    let mut table: Vec<Vec<usize>> = Vec::new();
    let mut i: usize = 0;
    while i <= n
        invariant
            n == a.len(),
            m == b.len(),
            a == left@,
            b == right@,
            n + m < usize::MAX / 4,
            w <= n + m,
            i <= n + 1,
            table.len() == i,
            is_band_table(table@, a, b, w as nat),
        decreases n + 1 - i,
    {
        let mut row: Vec<usize> = Vec::new();
        let mut t: usize = 0;
        while t <= 2 * w
            invariant
                n == a.len(),
                m == b.len(),
                a == left@,
                b == right@,
                n + m < usize::MAX / 4,
                w <= n + m,
                i <= n,
                t <= 2 * w + 1,
                table.len() == i,
                is_band_table(table@, a, b, w as nat),
                row.len() == t,
                forall|tt: int|
                    0 <= tt < t && 0 <= i + tt - w <= m ==> (#[trigger] row@[tt]) == capped(
                        edit_distance(suffix(a, i as int), suffix(b, i + tt - w)),
                        w as nat,
                    ),
            decreases 2 * w + 1 - t,
        {
            let v: usize;
            if t + i < w || t + i > w + m {
                v = w + 1;
            } else {
                let j = t + i - w;
                let ghost ai = suffix(a, i as int);
                let ghost bj = suffix(b, j as int);
                if i == 0 {
                    v = if j <= w { j } else { w + 1 };
                } else if j == 0 {
                    v = if i <= w { i } else { w + 1 };
                } else {
                    proof {
                        lemma_suffix_step(a, i as int);
                        lemma_suffix_step(b, j as int);
                    }
                    let del = band_cell(&table, Ghost(a), Ghost(b), w, i - 1, j) + 1;
                    let ins: usize;
                    if t > 0 {
                        assert(i + (t - 1) - w == j - 1);
                        ins = row[t - 1] + 1;
                    } else {
                        proof {
                            lemma_edit_distance_gap(ai, suffix(b, j - 1));
                        }
                        ins = w + 2;
                    }
                    let mut best = if del <= ins { del } else { ins };
                    if left[n - i] == right[m - j] {
                        let keep = band_cell(&table, Ghost(a), Ghost(b), w, i - 1, j - 1);
                        if keep < best {
                            best = keep;
                        }
                    }
                    v = if best <= w { best } else { w + 1 };
                }
            }
            row.push(v);
            t += 1;
        }
        table.push(row);
        i += 1;
    }
    table
}

/// A band wide enough to hold the edit distance between `left` and
/// `right`, with its half-width. The width doubles from one until the
/// distance fits, so time and memory are proportional to the total length
/// times the distance: near-identical inputs are fast, dissimilar ones slow.
fn distance_band(left: &Vec<char>, right: &Vec<char>) -> (res: (Vec<Vec<usize>>, usize))
    requires
        left@.len() + right@.len() < usize::MAX / 4,
    ensures
        res.0.len() == left@.len() + 1,
        is_band_table(res.0@, left@, right@, res.1 as nat),
        res.1 <= left@.len() + right@.len(),
        edit_distance(left@, right@) <= res.1,
{
    let n = left.len();
    let m = right.len();
    let total = n + m;
    let mut w: usize = if total == 0 { 0 } else { 1 };
    proof {
        lemma_edit_distance_bound(left@, right@);
    }
    assert(suffix(left@, n as int) =~= left@);
    assert(suffix(right@, m as int) =~= right@);
    loop
        invariant
            n == left@.len(),
            m == right@.len(),
            total == n + m,
            total < usize::MAX / 4,
            w <= total,
            total > 0 ==> w >= 1,
            edit_distance(left@, right@) <= total,
            suffix(left@, n as int) == left@,
            suffix(right@, m as int) == right@,
        decreases total - w,
    {
        let table = band_table(left, right, w);
        let d = band_cell(&table, Ghost(left@), Ghost(right@), w, n, m);
        if d <= w {
            return (table, w);
        }
        w = if 2 * w < total { 2 * w } else { total };
    }
}

/// The shortest edit script from `left` to `right`, one tagged unit per step,
/// in left-to-right order.
pub fn edit_script(left: &Vec<char>, right: &Vec<char>) -> (ops: Vec<(ChangeTag, char)>)
    requires
        left@.len() + right@.len() < usize::MAX / 4,
    ensures
        ops@ == script(left@, right@),
{
    let (table, w) = distance_band(left, right);
    let ghost a = left@;
    let ghost b = right@;
    let n = left.len();
    let m = right.len();
    let mut i: usize = n;
    let mut j: usize = m;
    let mut ops: Vec<(ChangeTag, char)> = Vec::new();
    assert(suffix(a, n as int) =~= a);
    assert(suffix(b, m as int) =~= b);
    assert(ops@ + script(a, b) =~= script(a, b));
    while i > 0 || j > 0
        invariant
            a == left@,
            b == right@,
            n == a.len(),
            m == b.len(),
            table.len() == a.len() + 1,
            is_band_table(table@, a, b, w as nat),
            a.len() + b.len() < usize::MAX / 4,
            w <= a.len() + b.len(),
            i <= n,
            j <= m,
            edit_distance(suffix(a, i as int), suffix(b, j as int)) <= w,
            ops@ + script(suffix(a, i as int), suffix(b, j as int)) == script(a, b),
        decreases i + j,
    {
        let ghost ai = suffix(a, i as int);
        let ghost bj = suffix(b, j as int);
        let here = band_cell(&table, Ghost(a), Ghost(b), w, i, j);
        if i > 0 {
            proof {
                lemma_suffix_step(a, i as int);
            }
        }
        if j > 0 {
            proof {
                lemma_suffix_step(b, j as int);
            }
        }
        let o: (ChangeTag, char);
        if i > 0 && j > 0 && left[n - i] == right[m - j] && band_cell(
            &table,
            Ghost(a),
            Ghost(b),
            w,
            i - 1,
            j - 1,
        ) == here {
            o = (ChangeTag::Equal, left[n - i]);
            i -= 1;
            j -= 1;
        } else if i > 0 && (j == 0 || band_cell(&table, Ghost(a), Ghost(b), w, i - 1, j) + 1
            == here) {
            o = (ChangeTag::Delete, left[n - i]);
            i -= 1;
        } else {
            o = (ChangeTag::Insert, right[m - j]);
            j -= 1;
        }
        proof {
            assert(script(ai, bj) == seq![o] + script(suffix(a, i as int), suffix(b, j as int)));
            assert(ops@.push(o) + script(suffix(a, i as int), suffix(b, j as int)) =~= ops@
                + script(ai, bj));
        }
        ops.push(o);
    }
    assert(suffix(a, 0) =~= Seq::<char>::empty());
    assert(suffix(b, 0) =~= Seq::<char>::empty());
    assert(ops@ + script(suffix(a, 0), suffix(b, 0)) =~= ops@);
    ops
}

/// Merges consecutive units of an edit script that share a tag into runs.
pub fn group_runs(ops: &Vec<(ChangeTag, char)>) -> (runs: Vec<Run>)
    ensures
        runs_view(runs@) == group(ops@),
{
    let mut runs: Vec<Run> = Vec::new();
    let mut k: usize = 0;
    assert(ops@.take(0) =~= Seq::<(ChangeTag, char)>::empty());
    assert(runs_view(runs@) =~= group(ops@.take(0)));
    while k < ops.len()
        invariant
            k <= ops.len(),
            runs_view(runs@) == group(ops@.take(k as int)),
        decreases ops.len() - k,
    {
        let o = ops[k];
        let ghost g = runs_view(runs@);
        assert(ops@.take(k + 1).drop_last() =~= ops@.take(k as int));
        assert(ops@.take(k + 1).last() == o);
        let len = runs.len();
        if len > 0 && runs[len - 1].tag == o.0 {
            let mut last = runs.pop().unwrap();
            last.units.push(o.1);
            runs.push(last);
            assert(runs_view(runs@) =~= g.update(g.len() - 1, (o.0, g.last().1.push(o.1))));
        } else {
            let mut units: Vec<char> = Vec::new();
            units.push(o.1);
            runs.push(Run { tag: o.0, units });
            assert(units@ =~= seq![o.1]);
            assert(runs_view(runs@) =~= g.push((o.0, seq![o.1])));
        }
        k += 1;
    }
    assert(ops@.take(ops.len() as int) =~= ops@);
    runs
}

/// The difference between `left` and `right` as maximal tagged runs.
///
/// The runs tagged `Equal` or `Delete` spell `left`, those tagged `Equal` or
/// `Insert` spell `right`, no two adjacent runs share a tag, and the changed
/// units are as few as any alignment allows. The result is a function of the
/// two inputs alone. Time and memory grow with the total length times the
/// edit distance, so very dissimilar inputs are slow.
pub fn diff(left: &Vec<char>, right: &Vec<char>) -> (runs: Vec<Run>)
    requires
        left@.len() + right@.len() < usize::MAX / 4,
    ensures
        runs_view(runs@) == group(script(left@, right@)),
        left_text(runs_view(runs@)) == left@,
        right_text(runs_view(runs@)) == right@,
        is_compact(runs_view(runs@)),
        changed_units(runs_view(runs@)) == edit_distance(left@, right@),
{
    let ops = edit_script(left, right);
    let runs = group_runs(&ops);
    proof {
        lemma_script_sound(left@, right@);
        lemma_group_sound(ops@);
    }
    runs
}

} // verus!
