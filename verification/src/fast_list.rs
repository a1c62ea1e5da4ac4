//! The decisions of the parallel listing: which objects a page keeps, where
//! the next page starts, the bounds of each list request, when a range is
//! done, how a busy worker hands parts of its range to the idle ones, and
//! when the whole listing is over. The listing calls themselves, the work queue
//! and the workers run outside the library and feed these functions.
use crate::lexical::{
    chars_equal, chars_of, lemma_lex_lt_asymmetric, lex_lt, starts_with_chars, string_from_chars,
};
use crate::name_order::{
    lemma_name_key_le_transitive, name_key_le, sort_by_name, sorted_by_name, within,
};
use crate::range_splitter::{
    split_is_computed, split_range_alphabet, split_range_defined, split_range_result,
    string_views, RangeSplitter,
};
use vstd::prelude::*;

verus! {

/// What to list and how many workers to run.
pub struct FastListConfig {
    pub bucket: String,
    pub prefix: String,
    pub max_parallelism: usize,
    pub skip_compose: bool,
}

/// An object as the listing reports it.
pub struct ListedObject {
    pub name: String,
    pub size: i64,
    pub storage_class: String,
}

impl Clone for ListedObject {
    fn clone(&self) -> (r: Self)
        ensures
            r == *self,
    {
        ListedObject {
            name: self.name.clone(),
            size: self.size,
            storage_class: self.storage_class.clone(),
        }
    }
}

/// The number of objects asked for per page.
pub const MAX_RESULTS: usize = 5000;

/// The name of a directory marker ends with a slash.
pub open spec fn is_directory_marker(name: Seq<char>) -> bool {
    name.len() > 0 && name.last() == '/'
}

/// Objects made by composition carry this prefix.
pub open spec fn is_composed_name(name: Seq<char>) -> bool {
    "composed_"@.is_prefix_of(name)
}

/// A listed object is kept unless it is a directory marker, a composed
/// object while those are skipped, or of a storage class other than
/// `STANDARD`.
pub open spec fn keeps_object(object: ListedObject, skip_compose: bool) -> bool {
    &&& !is_directory_marker(object.name@)
    &&& !(skip_compose && is_composed_name(object.name@))
    &&& object.storage_class@ == "STANDARD"@
}

/// Whether a listed object is kept.
pub fn keep_object(object: &ListedObject, skip_compose: bool) -> (r: bool)
    ensures
        r == keeps_object(*object, skip_compose),
{
    let name = chars_of(object.name.as_str());
    let is_dir = name.len() > 0 && name[name.len() - 1] == '/';
    let composed_prefix = chars_of("composed_");
    let is_compose = skip_compose && starts_with_chars(&name, &composed_prefix);
    let class = chars_of(object.storage_class.as_str());
    let standard = chars_of("STANDARD");
    let is_standard = chars_equal(&class, &standard);
    !is_dir && !is_compose && is_standard
}

/// Drops from a page the objects that are not kept, keeping the order of the
/// others.
pub fn retain_objects(items: &mut Vec<ListedObject>, skip_compose: bool)
    ensures
        final(items)@ == old(items)@.filter(|o: ListedObject| keeps_object(o, skip_compose)),
{
    let ghost pred = |o: ListedObject| keeps_object(o, skip_compose);
    let mut kept: Vec<ListedObject> = Vec::new();
    let ghost input = items@;
    let mut rest: Vec<ListedObject> = Vec::new();
    std::mem::swap(&mut rest, items);
    assert(rest@ == input);
    for object in it: rest.into_iter()
        invariant
            it.seq() == input,
            pred == (|o: ListedObject| keeps_object(o, skip_compose)),
            kept@ == input.take(it.index() as int).filter(pred),
    {
        proof {
            let i = it.index() as int;
            assert(object == input[i]);
            assert(input.take(i + 1).drop_last() =~= input.take(i));
            reveal_with_fuel(Seq::filter, 1);
        }
        if keep_object(&object, skip_compose) {
            kept.push(object);
        }
    }
    assert(input.take(input.len() as int) =~= input);
    *items = kept;
}

/// Where listing resumes after a page whose last object is `last_name`: the
/// name without the listing prefix when it carries it.
pub open spec fn resume_point(prefix: Seq<char>, last_name: Seq<char>) -> Seq<char> {
    if prefix.len() > 0 && prefix.is_prefix_of(last_name) {
        last_name.skip(prefix.len() as int)
    } else {
        last_name
    }
}

/// Resuming drops exactly the listing prefix: when a non-empty prefix starts
/// the last name, the prefix followed by the resume point spells the last
/// name; otherwise the resume point is the last name itself.
pub proof fn lemma_resume_point(prefix: Seq<char>, last_name: Seq<char>)
    ensures
        prefix.len() > 0 && prefix.is_prefix_of(last_name) ==> prefix + resume_point(
            prefix,
            last_name,
        ) == last_name,
        !(prefix.len() > 0 && prefix.is_prefix_of(last_name)) ==> resume_point(prefix, last_name)
            == last_name,
{
    if prefix.len() > 0 && prefix.is_prefix_of(last_name) {
        assert(prefix + last_name.skip(prefix.len() as int) =~= last_name);
    }
}

/// Whether an object is kept depends on its name, its storage class and
/// whether composites are skipped, never on its size: directory markers
/// (names ending in `/`) and objects of a class other than `STANDARD` are
/// always dropped, composites are dropped exactly when they are skipped,
/// every other object is kept, and skipping composites only ever keeps
/// fewer objects.
pub proof fn lemma_keeps_object(a: ListedObject, b: ListedObject, skip_compose: bool)
    ensures
        a.name@ == b.name@ && a.storage_class@ == b.storage_class@ ==> keeps_object(a, skip_compose)
            == keeps_object(b, skip_compose),
        a.name@.len() > 0 && a.name@.last() == '/' ==> !keeps_object(a, skip_compose),
        a.storage_class@ != "STANDARD"@ ==> !keeps_object(a, skip_compose),
        "composed_"@.is_prefix_of(a.name@) ==> !keeps_object(a, true),
        a.storage_class@ == "STANDARD"@ && !(a.name@.len() > 0 && a.name@.last() == '/') ==> (
        keeps_object(a, skip_compose) <==> !(skip_compose && "composed_"@.is_prefix_of(a.name@))),
        keeps_object(a, true) ==> keeps_object(a, false),
{
}

/// Where listing resumes after a page whose last object is `last_name`.
pub fn next_start_range(prefix: &str, last_name: &str) -> (r: String)
    ensures
        r@ == resume_point(prefix@, last_name@),
        prefix@.len() > 0 && prefix@.is_prefix_of(last_name@) ==> prefix@ + r@ == last_name@,
        !(prefix@.len() > 0 && prefix@.is_prefix_of(last_name@)) ==> r@ == last_name@,
{
    proof {
        lemma_resume_point(prefix@, last_name@);
    }
    let name = chars_of(last_name);
    let prefix_chars = chars_of(prefix);
    if !prefix.is_empty() && starts_with_chars(&name, &prefix_chars) {
        string_from_chars(&name, prefix_chars.len())
    } else {
        proof {
            assert(name@.skip(0) =~= name@);
        }
        string_from_chars(&name, 0)
    }
}

/// The bounds of one list request.
pub struct ListBounds {
    /// The listing prefix, when there is one.
    pub prefix: Option<String>,
    /// The first name that may be returned.
    pub lexicographic_start: String,
    /// The name before which listing stops, when the range is bounded.
    pub lexicographic_end: Option<String>,
}

/// The request bounds for the range `[start_range, end_range)` under
/// `prefix` (an empty `end_range` leaves the range unbounded).
pub fn list_bounds(prefix: &str, start_range: &str, end_range: &str) -> (b: ListBounds)
    ensures
        b.prefix is Some <==> prefix@.len() > 0,
        b.prefix matches Some(p) ==> p@ == prefix@,
        b.lexicographic_start@ == prefix@ + start_range@,
        b.lexicographic_end is Some <==> end_range@.len() > 0,
        b.lexicographic_end matches Some(e) ==> e@ == prefix@ + end_range@,
{
    if !prefix.is_empty() {
        let mut start = String::from_str(prefix);
        start.append(start_range);
        let end = if !end_range.is_empty() {
            let mut e = String::from_str(prefix);
            e.append(end_range);
            Some(e)
        } else {
            None
        };
        ListBounds { prefix: Some(String::from_str(prefix)), lexicographic_start: start, lexicographic_end: end }
    } else {
        let start = String::from_str(start_range);
        proof {
            assert(prefix@ + start_range@ =~= start_range@);
        }
        let end = if !end_range.is_empty() {
            let e = String::from_str(end_range);
            proof {
                assert(prefix@ + end_range@ =~= end_range@);
            }
            Some(e)
        } else {
            None
        };
        ListBounds { prefix: None, lexicographic_start: start, lexicographic_end: end }
    }
}

/// A range is done once a page comes back short or without a next page.
pub fn range_finished(num_returned: usize, next_page_token_empty: bool) -> (r: bool)
    ensures
        r == (num_returned < MAX_RESULTS || next_page_token_empty),
{
    num_returned < MAX_RESULTS || next_page_token_empty
}

/// A worker that finds the queue empty and makes every worker idle closes
/// the queue: the listing is over.
pub fn listing_finished(currently_idle: usize, num_workers: usize) -> (r: bool)
    ensures
        r == (currently_idle == num_workers),
{
    currently_idle == num_workers
}

/// The views of a list of ranges.
pub open spec fn range_views(v: Seq<(String, String)>) -> Seq<(Seq<char>, Seq<char>)> {
    v.map_values(|r: (String, String)| (r.0@, r.1@))
}

/// The ranges handed to idle workers for the split points `splits` of a
/// range ending at `end`: from each split point to the next, the last one to
/// `end`.
pub open spec fn stolen_ranges(splits: Seq<Seq<char>>, end: Seq<char>) -> Seq<(Seq<char>, Seq<char>)> {
    Seq::new(
        splits.len(),
        |k: int|
            (splits[k], if k + 1 < splits.len() {
                splits[k + 1]
            } else {
                end
            }),
    )
}

/// Each split point starts one handed-out range, in order: there are as many
/// ranges as split points, the `k`-th runs from split point `k` to split
/// point `k + 1`, and the last one runs to `end`.
pub proof fn lemma_stolen_ranges(splits: Seq<Seq<char>>, end: Seq<char>)
    ensures
        stolen_ranges(splits, end).len() == splits.len(),
        forall|k: int|
            0 <= k < splits.len() ==> {
                &&& (#[trigger] stolen_ranges(splits, end)[k]).0 == splits[k]
                &&& stolen_ranges(splits, end)[k].1 == (if k + 1 < splits.len() {
                    splits[k + 1]
                } else {
                    end
                })
            },
{
}

/// The range `[start, old_end)` is cut, without gap or overlap, into the part
/// the worker keeps, `[start, kept_end)`, followed by the stolen ranges in
/// order, the last of which ends at `old_end`. Every part is non-empty: its
/// start comes before its end, or its end is empty (unbounded).
pub open spec fn steal_partitions(
    start: Seq<char>,
    kept_end: Seq<char>,
    old_end: Seq<char>,
    stolen: Seq<(Seq<char>, Seq<char>)>,
) -> bool {
    &&& stolen.len() == 0 ==> kept_end == old_end
    &&& stolen.len() > 0 ==> {
        &&& lex_lt(start, kept_end)
        &&& stolen[0].0 == kept_end
        &&& stolen.last().1 == old_end
        &&& forall|k: int| 0 <= k < stolen.len() - 1 ==> #[trigger] stolen[k].1 == stolen[k + 1].0
    }
    &&& forall|k: int|
        0 <= k < stolen.len() ==> (#[trigger] stolen[k]).1.len() == 0 || lex_lt(
            stolen[k].0,
            stolen[k].1,
        )
}

/// Work stealing: when the queue is empty and some workers are idle, the
/// range `[start_range, end_range)` is split at one point per idle worker.
/// The worker keeps the part below the first split point (its `end_range`
/// becomes that point); the ranges between consecutive split points, the
/// last one up to the old end, are returned, one for each idle worker to
/// take from the queue.
pub fn plan_work_steal(
    splitter: &mut RangeSplitter,
    start_range: &str,
    end_range: &mut String,
    queue_empty: bool,
    idle_workers: usize,
) -> (stolen: Vec<(String, String)>)
    requires
        queue_empty && idle_workers > 0 ==> split_range_defined(
            old(splitter)@,
            start_range@,
            old(end_range)@,
            idle_workers as int,
        ),
    ensures
        ({
            let wanted = queue_empty && idle_workers > 0;
            let splits = split_range_result(
                old(splitter)@,
                start_range@,
                old(end_range)@,
                idle_workers as int,
            );
            &&& final(splitter)@ == (if wanted {
                split_range_alphabet(old(splitter)@, start_range@, old(end_range)@, idle_workers as int)
            } else {
                old(splitter)@
            })
            &&& range_views(stolen@) == (if wanted {
                stolen_ranges(splits, old(end_range)@)
            } else {
                Seq::empty()
            })
            &&& final(end_range)@ == (if wanted && splits.len() > 0 {
                splits[0]
            } else {
                old(end_range)@
            })
        }),
        stolen.len() <= idle_workers,
        steal_partitions(start_range@, final(end_range)@, old(end_range)@, range_views(stolen@)),
        ({
            let wanted = queue_empty && idle_workers > 0;
            let splits = split_range_result(
                old(splitter)@,
                start_range@,
                old(end_range)@,
                idle_workers as int,
            );
            &&& stolen.len() == (if wanted {
                splits.len()
            } else {
                0
            })
            &&& forall|k: int|
                0 <= k < stolen.len() ==> {
                    &&& (#[trigger] stolen@[k]).0@ == splits[k]
                    &&& stolen@[k].1@ == (if k + 1 < stolen.len() {
                        splits[k + 1]
                    } else {
                        old(end_range)@
                    })
                }
            &&& wanted && split_is_computed(
                old(splitter)@,
                start_range@,
                old(end_range)@,
                idle_workers as int,
            ) ==> stolen.len() == idle_workers
        }),
{

    let ghost e0 = end_range@;
    let mut stolen: Vec<(String, String)> = Vec::new();
    if queue_empty && idle_workers > 0 {
        let split_points = splitter.split_range(start_range, end_range.as_str(), idle_workers);
        let ghost splits = string_views(split_points@);
        let n = split_points.len();
        let mut k: usize = 0;
        while k < n
            invariant
                n == split_points.len(),
                k <= n,
                splits == string_views(split_points@),
                end_range@ == e0,
                range_views(stolen@) == stolen_ranges(splits, e0).take(k as int),
            decreases n - k,
        {
            let lo = split_points[k].clone();
            let hi = if k + 1 < n {
                split_points[k + 1].clone()
            } else {
                end_range.clone()
            };
            let ghost before = stolen@;
            stolen.push((lo, hi));
            proof {
                assert(range_views(stolen@) =~= range_views(before).push((lo@, hi@)));
                assert(stolen_ranges(splits, e0).take(k + 1) =~= stolen_ranges(splits, e0).take(
                    k as int,
                ).push(stolen_ranges(splits, e0)[k as int]));
            }
            k = k + 1;
        }
        proof {
            assert(stolen_ranges(splits, e0).take(n as int) =~= stolen_ranges(splits, e0));
        }
        if n > 0 {
            *end_range = split_points[0].clone();
        }
        proof {
            let st = range_views(stolen@);
            lemma_stolen_ranges(splits, e0);
            assert forall|k: int| 0 <= k < stolen.len() implies {
                &&& (#[trigger] stolen@[k]).0@ == splits[k]
                &&& stolen@[k].1@ == (if k + 1 < stolen.len() {
                    splits[k + 1]
                } else {
                    e0
                })
            } by {
                assert(st[k] == (stolen@[k].0@, stolen@[k].1@));
            }
            if n > 0 {
                assert(st[0].0 == splits[0]);
                assert(lex_lt(start_range@, split_points@[0]@));
                assert forall|k: int| 0 <= k < st.len() implies (#[trigger] st[k]).1.len() == 0
                    || lex_lt(st[k].0, st[k].1) by {
                    assert(st[k].0 == split_points@[k]@);
                    if k + 1 < n {
                        assert(st[k].1 == split_points@[k + 1]@);
                    }
                }
                assert forall|k: int| 0 <= k < st.len() - 1 implies #[trigger] st[k].1 == st[k
                    + 1].0 by {
                    assert(st[k].1 == splits[k + 1]);
                    assert(st[k + 1].0 == splits[k + 1]);
                }
            }
        }
    }
    stolen
}

/// What a worker does once a page of its range has come back.
pub struct PageStep {
    /// The objects of the page that the listing keeps, when the page was
    /// not empty.
    pub kept: Option<Vec<ListedObject>>,
    /// The range is done.
    pub finished: bool,
    /// The ranges handed to idle workers.
    pub stolen: Vec<(String, String)>,
}

/// One step of a worker listing `[start_range, end_range)`: given the page
/// that came back (its objects and whether a next page was announced), the
/// state of the queue and the number of idle workers, it filters the page,
/// moves `start_range` to the last name listed, decides whether the range is
/// done and, while it is not, hands out part of it to the idle workers. The
/// few bounds on which splitting would not return leave the range whole.
pub fn after_page(
    splitter: &mut RangeSplitter,
    prefix: &str,
    skip_compose: bool,
    start_range: &mut String,
    end_range: &mut String,
    page: Vec<ListedObject>,
    next_page_token_empty: bool,
    queue_empty: bool,
    idle_workers: usize,
) -> (step: PageStep)
    ensures
        step.kept is Some <==> page.len() > 0,
        step.kept matches Some(k) ==> k@ == page@.filter(|o: ListedObject| keeps_object(o, skip_compose)),
        final(start_range)@ == (if page.len() > 0 {
            resume_point(prefix@, page@.last().name@)
        } else {
            old(start_range)@
        }),
        step.finished == (page.len() < MAX_RESULTS || next_page_token_empty),
        ({
            let start = final(start_range)@;
            let e0 = old(end_range)@;
            let n = idle_workers as int;
            let wanted = !step.finished && queue_empty && idle_workers > 0;
            let defined = split_range_defined(old(splitter)@, start, e0, n);
            let splits = split_range_result(old(splitter)@, start, e0, n);
            &&& (wanted && defined && start.len() <= usize::MAX / 2 && e0.len() <= usize::MAX / 2)
                ==> {
                &&& final(splitter)@ == split_range_alphabet(old(splitter)@, start, e0, n)
                &&& range_views(step.stolen@) == stolen_ranges(splits, e0)
                &&& split_is_computed(old(splitter)@, start, e0, n) ==> step.stolen.len()
                    == idle_workers
                &&& final(end_range)@ == (if splits.len() > 0 {
                    splits[0]
                } else {
                    e0
                })
            }
            &&& !(wanted && defined) ==> {
                &&& final(splitter)@ == old(splitter)@
                &&& step.stolen.len() == 0
                &&& final(end_range)@ == e0
            }
        }),
        step.stolen.len() <= idle_workers,
        steal_partitions(
            final(start_range)@,
            final(end_range)@,
            old(end_range)@,
            range_views(step.stolen@),
        ),
{
    let num_returned = page.len();
    let mut items = page;
    let kept = if num_returned > 0 {
        let next = next_start_range(prefix, items[num_returned - 1].name.as_str());
        *start_range = next;
        retain_objects(&mut items, skip_compose);
        Some(items)
    } else {
        None
    };
    let finished = range_finished(num_returned, next_page_token_empty);
    let mut stolen: Vec<(String, String)> = Vec::new();
    if !finished && queue_empty && idle_workers > 0 {
        if splitter.split_range_returns(start_range.as_str(), end_range.as_str(), idle_workers) {
            stolen = plan_work_steal(splitter, start_range.as_str(), end_range, true, idle_workers);
        }
    }
    PageStep { kept, finished, stolen }
}

/// Object `i` is the first of the list to carry its name.
pub open spec fn first_with_its_name(objects: Seq<ListedObject>, i: int) -> bool {
    forall|j: int| 0 <= j < i ==> objects[j].name@ != objects[i].name@
}

/// `object` is, in `objects`, the first object carrying its name.
pub open spec fn is_first_of_its_name(objects: Seq<ListedObject>, object: ListedObject) -> bool {
    exists|i: int| 0 <= i < objects.len() && first_with_its_name(objects, i) && object == objects[i]
}

/// Some object of `objects` carries `name`.
pub open spec fn name_present(objects: Seq<ListedObject>, name: Seq<char>) -> bool {
    exists|k: int| 0 <= k < objects.len() && objects[k].name@ == name
}

/// Between two positions whose names are equal, every position in the order
/// carries that name too.
proof fn lemma_squeeze(names: Seq<Seq<char>>, a: int, b: int, c: int)
    requires
        name_key_le(names, a, b),
        name_key_le(names, b, c),
        names[a] == names[c],
    ensures
        names[b] == names[a],
{
    if names[b] != names[a] {
        lemma_lex_lt_asymmetric(names[a], names[b]);
    }
}

/// Position `q` of `order` starts a run of equal names.
spec fn starts_run(views: Seq<Seq<char>>, order: Seq<usize>, q: int) -> bool {
    q == 0 || views[order[q - 1] as int] != views[order[q] as int]
}

/// `x` stands at the start of a run among the first `k` positions of `order`.
spec fn kept_at_run_start(views: Seq<Seq<char>>, order: Seq<usize>, k: int, x: usize) -> bool {
    exists|q: int| #![trigger order[q]] 0 <= q < k && order[q] == x && starts_run(views, order, q)
}

/// Some kept position carries `name`.
spec fn name_covered(views: Seq<Seq<char>>, kept: Seq<usize>, name: Seq<char>) -> bool {
    exists|t: int| #![trigger kept[t]] 0 <= t < kept.len() && views[kept[t] as int] == name
}

/// The position at the start of a run of equal names is the earliest
/// position carrying that name.
proof fn lemma_first_in_run(views: Seq<Seq<char>>, order: Seq<usize>, q: int, r: int)
    requires
        sorted_by_name(views, order),
        order.no_duplicates(),
        0 <= q < order.len(),
        0 <= r < order.len(),
        starts_run(views, order, q),
        views[order[r] as int] == views[order[q] as int],
    ensures
        order[q] <= order[r],
{
    if r < q {
        if r < q - 1 {
            assert(name_key_le(views, order[r] as int, order[q - 1] as int));
        }
        assert(name_key_le(views, order[q - 1] as int, order[q] as int));
        lemma_squeeze(views, order[r] as int, order[q - 1] as int, order[q] as int);
    } else if r > q {
        assert(name_key_le(views, order[q] as int, order[r] as int));
        lemma_lex_lt_asymmetric(views[order[q] as int], views[order[q] as int]);
    }
}

/// Every position of the list appears in a rearrangement of its positions.
proof fn lemma_position_present(order: Seq<usize>, positions: Seq<usize>, i: int) -> (r: int)
    requires
        order.to_multiset() == positions.to_multiset(),
        positions == Seq::new(positions.len(), |x: int| x as usize),
        0 <= i < positions.len(),
    ensures
        0 <= r < order.len(),
        order[r] == i as usize,
{
    assert(positions[i] == i as usize);
    vstd::seq_lib::to_multiset_contains(positions, i as usize);
    vstd::seq_lib::to_multiset_contains(order, i as usize);
    choose|r: int| 0 <= r < order.len() && order[r] == i as usize
}

/// Listing with overlapping pages reports some objects more than once: this
/// keeps, for each name, the first object listed under it, in increasing
/// order of names.
/// The positions of `order` that start a run of equal names, in order.
fn run_starts(names: &Vec<Vec<char>>, order: &Vec<usize>) -> (kept: Vec<usize>)
    requires
        order.len() == names.len(),
        within(names@.map_values(|v: Vec<char>| v@), order@),
        sorted_by_name(names@.map_values(|v: Vec<char>| v@), order@),
        order@.no_duplicates(),
    ensures
        ({
            let views = names@.map_values(|v: Vec<char>| v@);
            &&& forall|t: int| 0 <= t < kept.len() ==> #[trigger] kept@[t] < names.len()
            &&& forall|a: int, b: int|
                0 <= a < b < kept.len() ==> lex_lt(
                    views[#[trigger] kept@[a] as int],
                    views[#[trigger] kept@[b] as int],
                )
            &&& forall|t: int|
                0 <= t < kept.len() ==> kept_at_run_start(
                    views,
                    order@,
                    names.len() as int,
                    #[trigger] kept@[t],
                )
            &&& forall|q: int|
                0 <= q < names.len() ==> name_covered(views, kept@, views[#[trigger] order@[q] as int])
        }),
{
    let n = names.len();
    let ghost views = names@.map_values(|v: Vec<char>| v@);
    let mut kept: Vec<usize> = Vec::new();
    let mut k: usize = 0;
    while k < n
        invariant
            n == names.len(),
            views == names@.map_values(|v: Vec<char>| v@),
            order.len() == n,
            within(views, order@),
            sorted_by_name(views, order@),
            order@.no_duplicates(),
            k <= n,
            forall|t: int| 0 <= t < kept.len() ==> #[trigger] kept@[t] < n,
            kept.len() > 0 ==> k > 0 && views[kept@.last() as int] == views[order@[k - 1] as int],
            forall|a: int, b: int|
                0 <= a < b < kept.len() ==> lex_lt(
                    views[#[trigger] kept@[a] as int],
                    views[#[trigger] kept@[b] as int],
                ),
            forall|t: int|
                0 <= t < kept.len() ==> kept_at_run_start(views, order@, k as int, #[trigger] kept@[t]),
            forall|q: int|
                0 <= q < k ==> name_covered(views, kept@, views[#[trigger] order@[q] as int]),
            k == 0 <==> kept.len() == 0,
        decreases n - k,
    {
        let p = order[k];
        let starts = k == 0 || !chars_equal(&names[order[k - 1]], &names[p]);
        proof {
            assert(views[p as int] == names@[p as int]@);
            if k > 0 {
                assert(views[order@[k - 1] as int] == names@[order@[k - 1] as int]@);
            }
        }
        let ghost before = kept@;
        if starts {
            proof {
                if kept.len() > 0 {
                    assert(name_key_le(views, order@[k - 1] as int, p as int));
                    assert forall|a: int| 0 <= a < kept.len() implies lex_lt(
                        views[#[trigger] kept@[a] as int],
                        views[p as int],
                    ) by {
                        assert(kept_at_run_start(views, order@, k as int, kept@[a]));
                        let q = choose|q: int|
                            #![trigger order@[q]]
                            0 <= q < k && order@[q] == kept@[a] && starts_run(views, order@, q);
                        if q < k - 1 {
                            assert(name_key_le(views, order@[q] as int, order@[k - 1] as int));
                        }
                        lemma_name_key_le_transitive(
                            views,
                            order@[q] as int,
                            order@[k - 1] as int,
                            p as int,
                        );
                        assert(order@[q] != p);
                        if views[order@[q] as int] == views[p as int] {
                            lemma_squeeze(views, order@[q] as int, order@[k - 1] as int, p as int);
                        }
                    }
                }
            }
            kept.push(p);
            proof {
                assert forall|t: int| 0 <= t < kept.len() implies kept_at_run_start(
                    views,
                    order@,
                    k + 1,
                    #[trigger] kept@[t],
                ) by {
                    if t == kept.len() - 1 {
                        assert(order@[k as int] == kept@[t] && starts_run(views, order@, k as int));
                    } else {
                        assert(kept@[t] == before[t]);
                        assert(kept_at_run_start(views, order@, k as int, before[t]));
                        let q = choose|q: int|
                            #![trigger order@[q]]
                            0 <= q < k && order@[q] == before[t] && starts_run(views, order@, q);
                        assert(order@[q] == kept@[t]);
                    }
                }
                assert forall|q: int| 0 <= q < k + 1 implies name_covered(
                    views,
                    kept@,
                    views[#[trigger] order@[q] as int],
                ) by {
                    if q == k {
                        assert(kept@[kept.len() - 1] == order@[q]);
                    } else {
                        assert(name_covered(views, before, views[order@[q] as int]));
                        let t = choose|t: int|
                            #![trigger before[t]]
                            0 <= t < before.len() && views[before[t] as int] == views[order@[q] as int];
                        assert(kept@[t] == before[t]);
                    }
                }
            }
        } else {
            proof {
                assert forall|q: int| 0 <= q < k + 1 implies name_covered(
                    views,
                    kept@,
                    views[#[trigger] order@[q] as int],
                ) by {
                    if q == k {
                        assert(name_covered(views, kept@, views[order@[k - 1] as int]));
                    }
                }
                assert forall|t: int| 0 <= t < kept.len() implies kept_at_run_start(
                    views,
                    order@,
                    k + 1,
                    #[trigger] kept@[t],
                ) by {
                    assert(kept_at_run_start(views, order@, k as int, kept@[t]));
                    let q = choose|q: int|
                        #![trigger order@[q]]
                        0 <= q < k && order@[q] == kept@[t] && starts_run(views, order@, q);
                    assert(order@[q] == kept@[t]);
                }
            }
        }
        k = k + 1;
    }
    kept
}

pub fn dedup_by_name(objects: &Vec<ListedObject>) -> (result: Vec<ListedObject>)
    ensures
        forall|a: int, b: int|
            0 <= a < b < result.len() ==> lex_lt(
                (#[trigger] result@[a]).name@,
                (#[trigger] result@[b]).name@,
            ),
        forall|k: int|
            0 <= k < result.len() ==> is_first_of_its_name(objects@, #[trigger] result@[k]),
        forall|i: int| 0 <= i < objects.len() ==> name_present(result@, (#[trigger] objects@[i]).name@),
{
    let n = objects.len();
    let mut names: Vec<Vec<char>> = Vec::new();
    let mut positions: Vec<usize> = Vec::new();
    let mut i: usize = 0;
    while i < n
        invariant
            n == objects.len(),
            i <= n,
            names.len() == i,
            positions@ == Seq::new(i as nat, |x: int| x as usize),
            forall|x: int| 0 <= x < i ==> (#[trigger] names@[x])@ == objects@[x].name@,
        decreases n - i,
    {
        names.push(chars_of(objects[i].name.as_str()));
        positions.push(i);
        assert(positions@ =~= Seq::new((i + 1) as nat, |x: int| x as usize));
        i = i + 1;
    }
    let ghost views = names@.map_values(|v: Vec<char>| v@);
    assert forall|x: int| 0 <= x < n implies #[trigger] views[x] == objects@[x].name@ by {}
    assert(within(views, positions@));
    let order = sort_by_name(&names, &positions);
    proof {
        positions@.lemma_multiset_has_no_duplicates();
        assert forall|x: usize| order@.to_multiset().contains(x) implies order@.to_multiset().count(x)
            == 1 by {}
        order@.lemma_multiset_has_no_duplicates_conv();
        vstd::seq_lib::to_multiset_len(order@);
        vstd::seq_lib::to_multiset_len(positions@);
    }
    let kept = run_starts(&names, &order);
    let mut result: Vec<ListedObject> = Vec::new();
    let mut t: usize = 0;
    while t < kept.len()
        invariant
            n == objects.len(),
            forall|x: int| 0 <= x < kept.len() ==> #[trigger] kept@[x] < n,
            t <= kept.len(),
            result.len() == t,
            forall|x: int| 0 <= x < t ==> #[trigger] result@[x] == objects@[kept@[x] as int],
        decreases kept.len() - t,
    {
        result.push(objects[kept[t]].clone());
        t = t + 1;
    }
    proof {
        assert forall|a: int, b: int| 0 <= a < b < result.len() implies lex_lt(
            (#[trigger] result@[a]).name@,
            (#[trigger] result@[b]).name@,
        ) by {
            assert(lex_lt(views[kept@[a] as int], views[kept@[b] as int]));
        }
        assert forall|x: int| 0 <= x < result.len() implies is_first_of_its_name(
            objects@,
            #[trigger] result@[x],
        ) by {
            let p = kept@[x] as int;
            assert(kept_at_run_start(views, order@, n as int, kept@[x]));
            let q = choose|q: int|
                #![trigger order@[q]]
                0 <= q < n && order@[q] == kept@[x] && starts_run(views, order@, q);
            assert forall|j: int| 0 <= j < p implies objects@[j].name@ != objects@[p].name@ by {
                if objects@[j].name@ == objects@[p].name@ {
                    let r = lemma_position_present(order@, positions@, j);
                    lemma_first_in_run(views, order@, q, r);
                }
            }
            assert(first_with_its_name(objects@, p));
            assert(result@[x] == objects@[p]);
        }
        assert forall|i: int| 0 <= i < objects.len() implies name_present(
            result@,
            (#[trigger] objects@[i]).name@,
        ) by {
            let r = lemma_position_present(order@, positions@, i);
            assert(name_covered(views, kept@, views[order@[r] as int]));
            let x = choose|x: int|
                #![trigger kept@[x]]
                0 <= x < kept.len() && views[kept@[x] as int] == views[order@[r] as int];
            assert(result@[x] == objects@[kept@[x] as int]);
            assert(views[kept@[x] as int] == objects@[kept@[x] as int].name@);
            assert(views[i] == objects@[i].name@);
            assert(result@[x].name@ == objects@[i].name@);
        }
    }
    result
}

} // verus!
