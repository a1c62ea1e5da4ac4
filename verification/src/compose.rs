//! Hierarchical composition of many objects into a few, and the split of a
//! downloaded composite back into its parts.
//!
//! Objects are composed level by level, at most `MAX_COMPOSE_BATCH` sources
//! at a time, until one object is left or the depth runs out. Each composite
//! remembers the range of source objects it holds, so that its download
//! can be cut back into those objects by their sizes. The calls to the store,
//! the files and the concurrency are outside the library.
use crate::lexical::{chars_of, push_char};
use vstd::prelude::*;

verus! {

/// The most sources one composition may take.
pub const MAX_COMPOSE_BATCH: usize = 32;

/// An object holding the source objects `start_idx..end_idx`, in order.
#[derive(Clone, Debug)]
pub struct ComposedBatch {
    pub name: String,
    pub start_idx: usize,
    pub end_idx: usize,
}

/// One composition: `sources` into `destination`, which then holds the
/// source objects `start_idx..end_idx`.
pub struct ComposeTask {
    pub destination: String,
    pub sources: Vec<String>,
    pub start_idx: usize,
    pub end_idx: usize,
}

/// Composition is only worth starting with objects and a positive depth.
pub fn compose_needed(depth: u32, num_objects: usize) -> (r: bool)
    ensures
        r == (depth != 0 && num_objects != 0),
{
    !(depth == 0 || num_objects == 0)
}

/// Each object on its own, as the first level.
pub fn initial_batches(objects: &Vec<String>) -> (batches: Vec<ComposedBatch>)
    ensures
        batches.len() == objects.len(),
        batches_consecutive(batches@),
        forall|i: int|
            0 <= i < objects.len() ==> {
                &&& (#[trigger] batches@[i]).name@ == objects@[i]@
                &&& batches@[i].start_idx == i
                &&& batches@[i].end_idx == i + 1
            },
{
    let mut batches: Vec<ComposedBatch> = Vec::new();
    let mut i: usize = 0;
    while i < objects.len()
        invariant
            i <= objects.len(),
            batches.len() == i,
            forall|j: int|
                0 <= j < i ==> {
                    &&& (#[trigger] batches@[j]).name@ == objects@[j]@
                    &&& batches@[j].start_idx == j
                    &&& batches@[j].end_idx == j + 1
                },
        decreases objects.len() - i,
    {
        batches.push(ComposedBatch { name: objects[i].clone(), start_idx: i, end_idx: i + 1 });
        i = i + 1;
    }
    batches
}

/// The decimal digit `d`.
pub open spec fn digit_char(d: int) -> char {
    if d == 0 {
        '0'
    } else if d == 1 {
        '1'
    } else if d == 2 {
        '2'
    } else if d == 3 {
        '3'
    } else if d == 4 {
        '4'
    } else if d == 5 {
        '5'
    } else if d == 6 {
        '6'
    } else if d == 7 {
        '7'
    } else if d == 8 {
        '8'
    } else {
        '9'
    }
}

/// `n` written in decimal, without leading zeros.
pub open spec fn decimal(n: nat) -> Seq<char>
    decreases n,
{
    if n < 10 {
        seq![digit_char(n as int)]
    } else {
        decimal(n / 10).push(digit_char((n % 10) as int))
    }
}

/// The name of the `batch`-th composite made at level `depth`.
pub open spec fn compose_name(depth: nat, batch: nat) -> Seq<char> {
    "composed_d"@ + decimal(depth) + "_b"@ + decimal(batch)
}

fn digit(d: usize) -> (c: char)
    requires
        d < 10,
    ensures
        c == digit_char(d as int),
{
    if d == 0 {
        '0'
    } else if d == 1 {
        '1'
    } else if d == 2 {
        '2'
    } else if d == 3 {
        '3'
    } else if d == 4 {
        '4'
    } else if d == 5 {
        '5'
    } else if d == 6 {
        '6'
    } else if d == 7 {
        '7'
    } else if d == 8 {
        '8'
    } else {
        '9'
    }
}

/// Appends `n` in decimal to `s`.
pub fn push_decimal(s: &mut String, n: usize)
    ensures
        final(s)@ == old(s)@ + decimal(n as nat),
    decreases n,
{
    if n < 10 {
        push_char(s, digit(n));
        assert(old(s)@.push(digit_char(n as int)) =~= old(s)@ + decimal(n as nat));
    } else {
        push_decimal(s, n / 10);
        push_char(s, digit(n % 10));
        assert(old(s)@ + decimal((n / 10) as nat) + seq![digit_char((n % 10) as int)] =~= old(s)@
            + decimal(n as nat));
    }
}

/// Appends the characters of `t` to `s`.
fn push_str(s: &mut String, t: &str)
    ensures
        final(s)@ == old(s)@ + t@,
{
    let chars = chars_of(t);
    let mut i: usize = 0;
    while i < chars.len()
        invariant
            i <= chars.len(),
            chars@ == t@,
            s@ == old(s)@ + chars@.take(i as int),
        decreases chars.len() - i,
    {
        push_char(s, chars[i]);
        assert(chars@.take(i + 1) =~= chars@.take(i as int).push(chars@[i as int]));
        assert(old(s)@ + chars@.take(i + 1) =~= old(s)@ + chars@.take(i as int) + seq![
            chars@[i as int],
        ]);
        i = i + 1;
    }
    assert(chars@.take(chars.len() as int) =~= chars@);
}

/// The name of the `batch`-th composite made at level `depth`.
pub fn composed_object_name(depth: u32, batch: usize) -> (name: String)
    ensures
        name@ == compose_name(depth as nat, batch as nat),
{
    let mut name = String::new();
    push_str(&mut name, "composed_d");
    push_decimal(&mut name, depth as usize);
    push_str(&mut name, "_b");
    push_decimal(&mut name, batch);
    assert(Seq::<char>::empty() + "composed_d"@ =~= "composed_d"@);
    name
}

/// Every composite's name carries the prefix of composed objects, so a
/// listing that skips composed objects skips all of them.
pub proof fn lemma_compose_name_is_composed(depth: nat, batch: nat)
    ensures
        crate::fast_list::is_composed_name(compose_name(depth, batch)),
{
    reveal_strlit("composed_d");
    reveal_strlit("composed_");
    let name = compose_name(depth, batch);
    assert("composed_"@ =~= name.subrange(0, 9));
}

/// `c` is one of the ten decimal digits.
pub open spec fn is_decimal_digit(c: char) -> bool {
    '0' <= c && c <= '9'
}

/// The number that a string of decimal digits spells.
pub open spec fn decimal_value(s: Seq<char>) -> int
    decreases s.len(),
{
    if s.len() == 0 {
        0
    } else {
        decimal_value(s.drop_last()) * 10 + (s.last() as int - '0' as int)
    }
}

proof fn lemma_digit_char_value(d: int)
    requires
        0 <= d < 10,
    ensures
        digit_char(d) as int - '0' as int == d,
        is_decimal_digit(digit_char(d)),
{
}

/// A number written in decimal is a non-empty string of digits that reads
/// back as the number.
pub proof fn lemma_decimal_reads_back(n: nat)
    ensures
        decimal(n).len() >= 1,
        forall|i: int| 0 <= i < decimal(n).len() ==> is_decimal_digit(#[trigger] decimal(n)[i]),
        decimal_value(decimal(n)) == n,
    decreases n,
{
    if n < 10 {
        lemma_digit_char_value(n as int);
        assert(decimal(n).drop_last() =~= Seq::<char>::empty());
        assert(decimal_value(Seq::<char>::empty()) == 0);
        assert(decimal(n).last() == digit_char(n as int));
        assert(decimal_value(decimal(n)) == decimal_value(decimal(n).drop_last()) * 10 + (
        decimal(n).last() as int - '0' as int));
    } else {
        lemma_digit_char_value((n % 10) as int);
        lemma_decimal_reads_back(n / 10);
        let d = decimal(n / 10);
        assert(decimal(n).drop_last() =~= d);
        assert(decimal(n).last() == digit_char((n % 10) as int));
        assert(decimal_value(decimal(n)) == decimal_value(d) * 10 + (digit_char((n % 10) as int) as int
            - '0' as int));
        assert forall|i: int| 0 <= i < decimal(n).len() implies is_decimal_digit(
            #[trigger] decimal(n)[i],
        ) by {
            if i < d.len() {
                assert(decimal(n)[i] == d[i]);
            }
        }
    }
}

/// Different levels or batches never get the same composite name, so no
/// composition overwrites another.
pub proof fn lemma_compose_names_distinct(d1: nat, b1: nat, d2: nat, b2: nat)
    requires
        compose_name(d1, b1) == compose_name(d2, b2),
    ensures
        d1 == d2,
        b1 == b2,
{
    reveal_strlit("composed_d");
    reveal_strlit("_b");
    let p = "composed_d"@;
    let x1 = decimal(d1);
    let y1 = decimal(b1);
    let x2 = decimal(d2);
    let y2 = decimal(b2);
    lemma_decimal_reads_back(d1);
    lemma_decimal_reads_back(b1);
    lemma_decimal_reads_back(d2);
    lemma_decimal_reads_back(b2);
    let r1 = x1 + "_b"@ + y1;
    let r2 = x2 + "_b"@ + y2;
    assert(compose_name(d1, b1) == p + r1) by {
        assert(p + x1 + "_b"@ + y1 =~= p + r1);
    }
    assert(compose_name(d2, b2) == p + r2) by {
        assert(p + x2 + "_b"@ + y2 =~= p + r2);
    }
    assert(r1 =~= (p + r1).skip(p.len() as int));
    assert(r2 =~= (p + r2).skip(p.len() as int));
    assert(r1 == r2);
    if x1.len() < x2.len() {
        assert(r1[x1.len() as int] == '_');
        assert(r2[x1.len() as int] == x2[x1.len() as int]);
        assert(is_decimal_digit(x2[x1.len() as int]));
    } else if x2.len() < x1.len() {
        assert(r2[x2.len() as int] == '_');
        assert(r1[x2.len() as int] == x1[x2.len() as int]);
        assert(is_decimal_digit(x1[x2.len() as int]));
    }
    assert(x1 =~= r1.take(x1.len() as int));
    assert(x2 =~= r2.take(x2.len() as int));
    assert(y1 =~= r1.skip(x1.len() + 2int));
    assert(y2 =~= r2.skip(x2.len() + 2int));
}

/// The batches follow one another: each ends where the next one starts.
pub open spec fn batches_consecutive(batches: Seq<ComposedBatch>) -> bool {
    forall|i: int| 0 <= i < batches.len() - 1 ==> #[trigger] batches[i].end_idx == batches[i + 1].start_idx
}

/// The composites follow one another: each ends where the next one starts.
pub open spec fn tasks_consecutive(tasks: Seq<ComposeTask>) -> bool {
    forall|i: int| 0 <= i < tasks.len() - 1 ==> #[trigger] tasks[i].end_idx == tasks[i + 1].start_idx
}

/// Where the `i`-th group of a level ends among `n` batches.
pub open spec fn group_end(n: int, i: int) -> int {
    if i * MAX_COMPOSE_BATCH + MAX_COMPOSE_BATCH < n {
        i * MAX_COMPOSE_BATCH + MAX_COMPOSE_BATCH
    } else {
        n
    }
}

/// `task` composes the `i`-th group of `MAX_COMPOSE_BATCH` batches into the
/// `i`-th composite of level `depth`.
pub open spec fn is_planned_task(
    batches: Seq<ComposedBatch>,
    depth: nat,
    i: int,
    task: ComposeTask,
) -> bool {
    let lo = i * MAX_COMPOSE_BATCH;
    let hi = group_end(batches.len() as int, i);
    &&& task.destination@ == compose_name(depth, i as nat)
    &&& task.sources.len() == hi - lo
    &&& forall|k: int| 0 <= k < hi - lo ==> (#[trigger] task.sources@[k])@ == batches[lo + k].name@
    &&& task.start_idx == batches[lo].start_idx
    &&& task.end_idx == batches[hi - 1].end_idx
}

/// `tasks` is the plan of a level: one composition per group of
/// `MAX_COMPOSE_BATCH` batches, in order.
pub open spec fn is_level_plan(batches: Seq<ComposedBatch>, depth: nat, tasks: Seq<ComposeTask>) -> bool {
    &&& tasks.len() == (batches.len() + MAX_COMPOSE_BATCH - 1) / (MAX_COMPOSE_BATCH as int)
    &&& forall|i: int| 0 <= i < tasks.len() ==> is_planned_task(batches, depth, i, #[trigger] tasks[i])
}

/// A level keeps its objects in order: when its batches follow one another,
/// so do its composites, which together hold the same source objects.
pub proof fn lemma_level_plan_in_order(
    batches: Seq<ComposedBatch>,
    depth: nat,
    tasks: Seq<ComposeTask>,
)
    requires
        is_level_plan(batches, depth, tasks),
        batches_consecutive(batches),
        batches.len() > 0,
    ensures
        tasks.len() > 0,
        tasks_consecutive(tasks),
        tasks[0].start_idx == batches[0].start_idx,
        tasks.last().end_idx == batches.last().end_idx,
{
    let n = batches.len() as int;
    let m = MAX_COMPOSE_BATCH as int;
    let t = tasks.len() as int;
    assert((t - 1) * m < n <= t * m) by (nonlinear_arith)
        requires
            t == (n + m - 1) / m,
            m == 32,
            n > 0,
    ;
    assert(t > 0);
    assert(is_planned_task(batches, depth, 0, tasks[0]));
    assert forall|i: int| 0 <= i < t - 1 implies #[trigger] tasks[i].end_idx == tasks[i + 1].start_idx by {
        assert(is_planned_task(batches, depth, i, tasks[i]));
        assert(is_planned_task(batches, depth, i + 1, tasks[i + 1]));
        assert(i * m + m == (i + 1) * m) by (nonlinear_arith);
        assert((i + 1) * m <= (t - 1) * m) by (nonlinear_arith)
            requires
                i + 1 <= t - 1,
                m > 0,
        ;
        assert(batches[(i + 1) * m - 1].end_idx == batches[(i + 1) * m].start_idx);
    }
    assert(is_planned_task(batches, depth, t - 1, tasks[t - 1]));
    assert((t - 1) * m + m == t * m) by (nonlinear_arith);
}

/// The names of the sources of `tasks`, task after task, each task's sources
/// in order.
pub open spec fn source_names(tasks: Seq<ComposeTask>) -> Seq<Seq<char>>
    decreases tasks.len(),
{
    if tasks.len() == 0 {
        Seq::empty()
    } else {
        source_names(tasks.drop_last()) + tasks.last().sources@.map_values(|n: String| n@)
    }
}

/// The names of `batches`, in order.
pub open spec fn batch_names(batches: Seq<ComposedBatch>) -> Seq<Seq<char>> {
    batches.map_values(|b: ComposedBatch| b.name@)
}

proof fn lemma_level_sources_prefix(
    batches: Seq<ComposedBatch>,
    depth: nat,
    tasks: Seq<ComposeTask>,
    j: int,
)
    requires
        is_level_plan(batches, depth, tasks),
        0 <= j <= tasks.len(),
    ensures
        source_names(tasks.take(j)) == batch_names(batches).take(
            if j * MAX_COMPOSE_BATCH < batches.len() {
                j * MAX_COMPOSE_BATCH
            } else {
                batches.len() as int
            },
        ),
    decreases j,
{
    let n = batches.len() as int;
    let m = MAX_COMPOSE_BATCH as int;
    let t = tasks.len() as int;
    if j == 0 {
        assert(tasks.take(0) =~= Seq::<ComposeTask>::empty());
        assert(batch_names(batches).take(0) =~= Seq::<Seq<char>>::empty());
    } else {
        lemma_level_sources_prefix(batches, depth, tasks, j - 1);
        let i = j - 1;
        assert((t - 1) * m < n) by (nonlinear_arith)
            requires
                t == (n + m - 1) / m,
                m == 32,
        ;
        assert(i * m <= (t - 1) * m) by (nonlinear_arith)
            requires
                i <= t - 1,
                m > 0,
        ;
        assert(i * m >= 0) by (nonlinear_arith)
            requires
                i >= 0,
                m > 0,
        ;
        assert(i * m + m == j * m) by (nonlinear_arith)
            requires
                j == i + 1,
        ;
        let task = tasks[i];
        assert(is_planned_task(batches, depth, i, task));
        let lo = i * m;
        let hi = group_end(n, i);
        assert(tasks.take(j).drop_last() =~= tasks.take(i));
        assert(tasks.take(j).last() == task);
        let names = task.sources@.map_values(|x: String| x@);
        assert(batch_names(batches).take(hi) =~= batch_names(batches).take(lo) + names) by {
            assert forall|k: int| 0 <= k < hi - lo implies names[k] == batch_names(batches)[lo
                + k] by {
                assert(task.sources@[k]@ == batches[lo + k].name@);
            }
        }
    }
}

/// Composing a level loses, repeats and reorders nothing: the sources of its
/// composites, taken in order, are the names of its batches, in order.
pub proof fn lemma_level_plan_sources(
    batches: Seq<ComposedBatch>,
    depth: nat,
    tasks: Seq<ComposeTask>,
)
    requires
        is_level_plan(batches, depth, tasks),
    ensures
        source_names(tasks) == batch_names(batches),
{
    let n = batches.len() as int;
    let m = MAX_COMPOSE_BATCH as int;
    let t = tasks.len() as int;
    lemma_level_sources_prefix(batches, depth, tasks, t);
    assert(n <= t * m) by (nonlinear_arith)
        requires
            t == (n + m - 1) / m,
            m == 32,
            n >= 0,
    ;
    assert(tasks.take(t) =~= tasks);
    assert(batch_names(batches).take(n) =~= batch_names(batches));
}

/// The compositions of one level: the batches in groups of
/// `MAX_COMPOSE_BATCH`, in order, the `i`-th group composed into the `i`-th
/// composite of the level.
pub fn plan_compose_level(batches: &Vec<ComposedBatch>, depth: u32) -> (tasks: Vec<ComposeTask>)
    ensures
        is_level_plan(batches@, depth as nat, tasks@),
        source_names(tasks@) == batch_names(batches@),
{
    let mut tasks: Vec<ComposeTask> = Vec::new();
    let mut lo: usize = 0;
    let mut i: usize = 0;
    while lo < batches.len()
        invariant
            lo <= batches.len(),
            lo < batches.len() ==> lo == i * MAX_COMPOSE_BATCH,
            lo == batches.len() ==> (i - 1) * MAX_COMPOSE_BATCH < batches.len() <= i
                * MAX_COMPOSE_BATCH,
            tasks.len() == i,
            forall|t: int|
                0 <= t < i ==> is_planned_task(batches@, depth as nat, t, #[trigger] tasks@[t]),
        decreases batches.len() - lo,
    {
        let hi = if batches.len() - lo > MAX_COMPOSE_BATCH {
            lo + MAX_COMPOSE_BATCH
        } else {
            batches.len()
        };
        let mut sources: Vec<String> = Vec::new();
        let mut k: usize = lo;
        while k < hi
            invariant
                lo <= k <= hi,
                hi <= batches.len(),
                sources.len() == k - lo,
                forall|x: int| 0 <= x < k - lo ==> (#[trigger] sources@[x])@ == batches@[lo + x].name@,
            decreases hi - k,
        {
            sources.push(batches[k].name.clone());
            k = k + 1;
        }
        let destination = composed_object_name(depth, i);
        tasks.push(
            ComposeTask {
                destination,
                sources,
                start_idx: batches[lo].start_idx,
                end_idx: batches[hi - 1].end_idx,
            },
        );
        proof {
            assert(i * MAX_COMPOSE_BATCH + MAX_COMPOSE_BATCH == (i + 1) * MAX_COMPOSE_BATCH);
        }
        lo = hi;
        i = i + 1;
    }
    proof {
        let n = batches.len() as int;
        let m = MAX_COMPOSE_BATCH as int;
        let ii = i as int;
        assert((n + m - 1) / m == ii) by (nonlinear_arith)
            requires
                (ii - 1) * m < n <= ii * m,
                m == 32,
        ;
        lemma_level_plan_sources(batches@, depth as nat, tasks@);
    }
    tasks
}

/// The composition of level `current_depth` (levels run from 1 to `depth`):
/// nothing once the batches are down to a single object or the depth has
/// run out, otherwise the compose requests of that level.
pub fn next_compose_level(batches: &Vec<ComposedBatch>, current_depth: u32, depth: u32) -> (tasks:
    Option<Vec<ComposeTask>>)
    ensures
        tasks is None <==> (current_depth < 1 || current_depth > depth || batches.len() == 1),
        tasks matches Some(t) ==> is_level_plan(batches@, current_depth as nat, t@),
        tasks matches Some(t) ==> source_names(t@) == batch_names(batches@),
{
    if current_depth < 1 || current_depth > depth || batches.len() == 1 {
        None
    } else {
        Some(plan_compose_level(batches, current_depth))
    }
}

/// Holds the batches whose first source object is `x`.
pub open spec fn starts_at(x: usize) -> spec_fn(ComposedBatch) -> bool {
    |b: ComposedBatch| b.start_idx == x
}

proof fn lemma_filter_none(s: Seq<ComposedBatch>, x: usize)
    requires
        forall|i: int| 0 <= i < s.len() ==> (#[trigger] s[i]).start_idx != x,
    ensures
        s.filter(starts_at(x)) == Seq::<ComposedBatch>::empty(),
    decreases s.len(),
{
    if s.len() > 0 {
        lemma_filter_none(s.drop_last(), x);
        s.drop_last().lemma_filter_push(s.last(), starts_at(x));
        assert(s.drop_last().push(s.last()) =~= s);
    }
}

/// Inserting a batch in front of every batch with a later start keeps,
/// among the batches of each start, the order in which they came.
proof fn lemma_insert_after_equals(
    before: Seq<ComposedBatch>,
    p: int,
    batch: ComposedBatch,
    x: usize,
)
    requires
        0 <= p <= before.len(),
        forall|i: int| p <= i < before.len() ==> (#[trigger] before[i]).start_idx > batch.start_idx,
    ensures
        before.insert(p, batch).filter(starts_at(x)) == before.push(batch).filter(starts_at(x)),
{
    let f = starts_at(x);
    let a = before.take(p);
    let b = before.skip(p);
    assert(before =~= a + b);
    assert(before.insert(p, batch) =~= a.push(batch) + b);
    Seq::filter_distributes_over_add(a.push(batch), b, f);
    Seq::filter_distributes_over_add(a, b, f);
    a.lemma_filter_push(batch, f);
    before.lemma_filter_push(batch, f);
    if x == batch.start_idx {
        assert forall|i: int| 0 <= i < b.len() implies (#[trigger] b[i]).start_idx != x by {
            assert(b[i] == before[p + i]);
        }
        lemma_filter_none(b, x);
        assert(a.filter(f) + b.filter(f) =~= a.filter(f));
        assert(a.filter(f).push(batch) + b.filter(f) =~= a.filter(f).push(batch));
    }
}

/// The batches ordered by the first source object they hold; batches with
/// the same start keep their order.
pub fn order_by_start(batches: Vec<ComposedBatch>) -> (ordered: Vec<ComposedBatch>)
    ensures
        ordered@.to_multiset() == batches@.to_multiset(),
        forall|i: int, j: int|
            0 <= i < j < ordered.len() ==> (#[trigger] ordered@[i]).start_idx
                <= (#[trigger] ordered@[j]).start_idx,
        forall|x: usize|
            #![trigger starts_at(x)]
            ordered@.filter(starts_at(x)) == batches@.filter(starts_at(x)),
{
    let ghost input = batches@;
    let mut ordered: Vec<ComposedBatch> = Vec::new();
    assert(ordered@ =~= input.take(0));
    for batch in it: batches.into_iter()
        invariant
            it.seq() == input,
            ordered@.to_multiset() == input.take(it.index() as int).to_multiset(),
            forall|i: int, j: int|
                0 <= i < j < ordered.len() ==> (#[trigger] ordered@[i]).start_idx
                    <= (#[trigger] ordered@[j]).start_idx,
            forall|x: usize|
                #![trigger starts_at(x)]
                ordered@.filter(starts_at(x)) == input.take(it.index() as int).filter(starts_at(x)),
    {
        let ghost idx = it.index() as int;
        proof {
            assert(batch == input[idx]);
            assert(input.take(idx + 1) =~= input.take(idx).push(input[idx]));
            vstd::seq_lib::to_multiset_build(input.take(idx), input[idx]);
        }
        let mut p: usize = 0;
        while p < ordered.len() && ordered[p].start_idx <= batch.start_idx
            invariant
                p <= ordered.len(),
                forall|x: int| 0 <= x < p ==> (#[trigger] ordered@[x]).start_idx <= batch.start_idx,
            decreases ordered.len() - p,
        {
            p = p + 1;
        }
        let ghost before = ordered@;
        proof {
            vstd::seq_lib::to_multiset_insert(before, p as int, batch);
            assert forall|i: int| p <= i < before.len() implies (
            #[trigger] before[i]).start_idx > batch.start_idx by {
                assert(before[p as int].start_idx > batch.start_idx);
                if i > p {
                    assert(before[p as int].start_idx <= before[i].start_idx);
                }
            }
            assert forall|x: usize|
                #![trigger starts_at(x)]
                before.insert(p as int, batch).filter(starts_at(x)) == input.take(idx + 1).filter(
                    starts_at(x),
                ) by {
                lemma_insert_after_equals(before, p as int, batch, x);
                before.lemma_filter_push(batch, starts_at(x));
                input.take(idx).lemma_filter_push(input[idx], starts_at(x));
                assert(before.filter(starts_at(x)) == input.take(idx).filter(starts_at(x)));
            }
        }
        ordered.insert(p, batch);
        proof {
            assert forall|i: int, j: int| 0 <= i < j < ordered.len() implies (
            #[trigger] ordered@[i]).start_idx <= (#[trigger] ordered@[j]).start_idx by {
                if j < p {
                    assert(ordered@[i] == before[i] && ordered@[j] == before[j]);
                } else if j == p {
                    assert(ordered@[i] == before[i]);
                } else if i < p {
                    assert(ordered@[i] == before[i] && ordered@[j] == before[j - 1]);
                    assert(before[i].start_idx <= batch.start_idx);
                    if p < before.len() {
                        assert(before[p as int].start_idx > batch.start_idx);
                        if j - 1 > p {
                            assert(before[p as int].start_idx <= before[j - 1].start_idx);
                        }
                    }
                } else if i == p {
                    assert(ordered@[j] == before[j - 1]);
                    assert(before[p as int].start_idx > batch.start_idx);
                    if j - 1 > p {
                        assert(before[p as int].start_idx <= before[j - 1].start_idx);
                    }
                } else {
                    assert(ordered@[i] == before[i - 1] && ordered@[j] == before[j - 1]);
                }
            }
        }
    }
    proof {
        assert(input.take(input.len() as int) =~= input);
    }
    ordered
}

/// Where the split of a composite's download stands: the source object
/// being written, how many of its bytes are written, and whether its file
/// is open.
#[derive(Clone, Copy, Debug, PartialEq, Eq)]
pub struct DemuxState {
    pub file_idx: usize,
    pub written: i64,
    pub file_open: bool,
}

/// What to do with the next bytes of a downloaded composite.
#[derive(Clone, Copy, Debug, PartialEq, Eq)]
pub enum DemuxAction {
    /// The composite holds more bytes than its objects' sizes add up to.
    Overflow,
    /// Write the next `len` bytes to the file of source object
    /// `file_idx`, creating that file first when `open_file` is set and
    /// finishing it afterwards when `close_file` is set.
    Write { file_idx: usize, open_file: bool, len: usize, close_file: bool },
}

/// The state at the start of a composite holding objects from `start_idx`.
pub fn demux_start(start_idx: usize) -> (state: DemuxState)
    ensures
        state == (DemuxState { file_idx: start_idx, written: 0, file_open: false }),
{
    DemuxState { file_idx: start_idx, written: 0, file_open: false }
}

/// The state is consistent with the sizes of the objects `..end_idx`.
pub open spec fn demux_consistent(state: DemuxState, base_sizes: Seq<i64>, end_idx: int) -> bool {
    &&& end_idx <= base_sizes.len()
    &&& forall|i: int| 0 <= i < base_sizes.len() ==> #[trigger] base_sizes[i] >= 0
    &&& state.file_idx < end_idx ==> 0 <= state.written <= base_sizes[state.file_idx as int]
    &&& state.file_idx >= end_idx ==> state.written == 0 && !state.file_open
}

/// The decision for the next bytes of a composite: with `chunk_remaining`
/// bytes of the current chunk left, write as many as the current object
/// still lacks, and move to the next object once it is complete.
pub fn demux_step(
    state: &mut DemuxState,
    base_sizes: &Vec<i64>,
    end_idx: usize,
    chunk_remaining: usize,
) -> (action: DemuxAction)
    requires
        demux_consistent(*old(state), base_sizes@, end_idx as int),
    ensures
        demux_consistent(*final(state), base_sizes@, end_idx as int),
        old(state).file_idx >= end_idx ==> action == DemuxAction::Overflow && *final(state) == *old(
            state,
        ),
        old(state).file_idx < end_idx ==> {
            let expected = base_sizes@[old(state).file_idx as int];
            let missing = expected - old(state).written;
            let len = if chunk_remaining < missing {
                chunk_remaining as int
            } else {
                missing
            };
            let done = old(state).written + len == expected;
            &&& action == DemuxAction::Write {
                file_idx: old(state).file_idx,
                open_file: !old(state).file_open,
                len: len as usize,
                close_file: done,
            }
            &&& *final(state) == if done {
                DemuxState { file_idx: (old(state).file_idx + 1) as usize, written: 0, file_open: false }
            } else {
                DemuxState {
                    file_idx: old(state).file_idx,
                    written: (old(state).written + len) as i64,
                    file_open: true,
                }
            }
        },
{
    if state.file_idx >= end_idx {
        return DemuxAction::Overflow;
    }
    let expected_size = base_sizes[state.file_idx];
    let remaining_for_file = expected_size - state.written;
    let open_file = !state.file_open;
    let write_len: usize = if (chunk_remaining as u64) < (remaining_for_file as u64) {
        chunk_remaining
    } else {
        remaining_for_file as usize
    };
    let written = state.written + write_len as i64;
    let file_idx = state.file_idx;
    if written == expected_size {
        *state = DemuxState { file_idx: file_idx + 1, written: 0, file_open: false };
        DemuxAction::Write { file_idx, open_file, len: write_len, close_file: true }
    } else {
        *state = DemuxState { file_idx, written, file_open: true };
        DemuxAction::Write { file_idx, open_file, len: write_len, close_file: false }
    }
}

} // verus!
