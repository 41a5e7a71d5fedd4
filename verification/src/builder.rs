//! Scaffold builder: folds an ordered record sequence into a flat list of
//! paths to create.
//!
//! The only carried state is the chain of currently-open ancestor
//! directories.  Since every entry of that chain is a prefix of the deepest
//! one, the builder represents the whole chain by the deepest entry alone: a
//! list of name segments below the output root.  Before each record the
//! prefix is cut back to the record's depth (a no-op when the record jumps
//! deeper than the prefix reaches, which silently yields a shallower path
//! than the listing drew — the depth is trusted at face value); the target
//! path is the prefix plus the record's name; a directory record then
//! becomes the new prefix, while a file record leaves it unchanged.
//!
//! Carrying the plan out is the caller's business; [`apply_plan`] states
//! what doing so means for an abstract file tree, and
//! [`lemma_plan_idempotent`] shows that replaying a plan changes nothing.

use vstd::prelude::*;

use crate::parser::{Entry, Record};

verus! {

/// One planned creation: the path to create, as name segments below the
/// output root, and whether it is a directory or an empty file.
pub struct Action {
    pub path: Vec<String>,
    pub is_dir: bool,
}

/// Mathematical form of an [`Action`]: the segments of the path, and the
/// kind of entry to create at it.
pub ghost struct Target {
    pub path: Seq<Seq<char>>,
    pub is_dir: bool,
}

impl View for Action {
    type V = Target;

    open spec fn view(&self) -> Target {
        Target { path: self.path.deep_view(), is_dir: self.is_dir }
    }
}

impl DeepView for Action {
    type V = Target;

    open spec fn deep_view(&self) -> Target {
        self@
    }
}

/// The ancestor prefix cut back to `depth` segments; a shorter prefix is
/// kept as it is.
pub open spec fn cut_prefix(cur: Seq<Seq<char>>, depth: nat) -> Seq<Seq<char>> {
    if cur.len() > depth {
        cur.take(depth as int)
    } else {
        cur
    }
}

/// The creation that record `r` asks for when the ancestor prefix is `cur`.
pub open spec fn target_of(cur: Seq<Seq<char>>, r: Record) -> Target {
    Target { path: cut_prefix(cur, r.depth).push(r.name), is_dir: r.is_dir }
}

/// The ancestor prefix after record `r` is processed: a directory becomes
/// the new deepest open directory, a file is a leaf and changes nothing.
pub open spec fn next_prefix(cur: Seq<Seq<char>>, r: Record) -> Seq<Seq<char>> {
    if r.is_dir {
        cut_prefix(cur, r.depth).push(r.name)
    } else {
        cut_prefix(cur, r.depth)
    }
}

/// The creations that `records` ask for, in order, starting from ancestor
/// prefix `cur`.
pub open spec fn plan_from(cur: Seq<Seq<char>>, records: Seq<Record>) -> Seq<Target>
    decreases records.len(),
{
    if records.len() == 0 {
        Seq::empty()
    } else {
        seq![target_of(cur, records[0])] + plan_from(
            next_prefix(cur, records[0]),
            records.drop_first(),
        )
    }
}

/// The ancestor prefix left after all of `records`, starting from `cur`.
pub open spec fn prefix_after(cur: Seq<Seq<char>>, records: Seq<Record>) -> Seq<Seq<char>>
    decreases records.len(),
{
    if records.len() == 0 {
        cur
    } else {
        prefix_after(next_prefix(cur, records[0]), records.drop_first())
    }
}

/// The creations an ordered record sequence asks for below the output root.
pub open spec fn plan(records: Seq<Record>) -> Seq<Target> {
    plan_from(Seq::empty(), records)
}

/// Extending a record sequence by one record extends its plan by the
/// creation that record asks for under the prefix the earlier records left.
proof fn lemma_plan_from_push(cur: Seq<Seq<char>>, records: Seq<Record>, r: Record)
    ensures
        plan_from(cur, records.push(r)) == plan_from(cur, records) + seq![
            target_of(prefix_after(cur, records), r),
        ],
        prefix_after(cur, records.push(r)) == next_prefix(prefix_after(cur, records), r),
    decreases records.len(),
{
    if records.len() == 0 {
        assert(records.push(r)[0] == r);
        assert(records.push(r).drop_first() =~= Seq::<Record>::empty());
        assert(plan_from(next_prefix(cur, r), Seq::<Record>::empty()) == Seq::<Target>::empty());
        assert(prefix_after(next_prefix(cur, r), Seq::<Record>::empty()) == next_prefix(cur, r));
        assert(prefix_after(cur, records) == cur);
        assert(plan_from(cur, records) == Seq::<Target>::empty());
        assert(plan_from(cur, records.push(r)) =~= plan_from(cur, records) + seq![
            target_of(prefix_after(cur, records), r),
        ]);
    } else {
        let r0 = records[0];
        let cur1 = next_prefix(cur, r0);
        let rest = records.drop_first();
        assert(records.push(r)[0] == r0);
        assert(records.push(r).drop_first() =~= rest.push(r));
        lemma_plan_from_push(cur1, rest, r);
        assert(plan_from(cur, records.push(r)) == seq![target_of(cur, r0)] + plan_from(
            cur1,
            rest.push(r),
        ));
        assert(prefix_after(cur, records.push(r)) == prefix_after(cur1, rest.push(r)));
        assert(prefix_after(cur, records) == prefix_after(cur1, rest));
        assert(plan_from(cur, records) == seq![target_of(cur, r0)] + plan_from(cur1, rest));
        assert(seq![target_of(cur, r0)] + (plan_from(cur1, rest) + seq![
            target_of(prefix_after(cur1, rest), r),
        ]) =~= (seq![target_of(cur, r0)] + plan_from(cur1, rest)) + seq![
            target_of(prefix_after(cur1, rest), r),
        ]);
    }
}

fn clone_string(s: &String) -> (r: String)
    ensures
        r@ == s@,
{
    s.clone()
}

fn clone_segments(v: &Vec<String>) -> (r: Vec<String>)
    ensures
        r.deep_view() == v.deep_view(),
{
    let mut r: Vec<String> = Vec::new();
    let mut i: usize = 0;
    while i < v.len()
        invariant
            i <= v.len(),
            r@.len() == i,
            forall|j: int| 0 <= j < i ==> r@[j]@ == v@[j]@,
        decreases v.len() - i,
    {
        r.push(clone_string(&v[i]));
        i = i + 1;
    }
    proof {
        assert(r.deep_view() =~= v.deep_view());
    }
    r
}

/// Plans the scaffold an ordered record sequence describes: one creation
/// per record, in input order, each at the path the depth-tracked ancestor
/// prefix gives it.
pub fn plan_scaffold(entries: &Vec<Entry>) -> (acts: Vec<Action>)
    ensures
        acts.deep_view() == plan(entries.deep_view()),
{
    let mut cur: Vec<String> = Vec::new();
    let mut out: Vec<Action> = Vec::new();
    let mut k: usize = 0;
    proof {
        assert(entries.deep_view().take(0) =~= Seq::<Record>::empty());
        assert(out.deep_view() =~= plan_from(Seq::empty(), Seq::<Record>::empty()));
        assert(cur.deep_view() =~= Seq::<Seq<char>>::empty());
    }
    while k < entries.len()
        invariant
            k <= entries.len(),
            entries.deep_view().len() == entries.len(),
            cur.deep_view() == prefix_after(Seq::empty(), entries.deep_view().take(k as int)),
            out.deep_view() == plan_from(Seq::empty(), entries.deep_view().take(k as int)),
        decreases entries.len() - k,
    {
        let ghost recs = entries.deep_view();
        let ghost old_cur = cur.deep_view();
        let e = &entries[k];
        assert(recs[k as int] == e@);
        if cur.len() > e.depth {
            cur.truncate(e.depth);
            proof {
                assert(cur.deep_view() =~= old_cur.take(e.depth as int));
            }
        }
        proof {
            assert(cur.deep_view() =~= cut_prefix(old_cur, e@.depth));
        }
        let mut path = clone_segments(&cur);
        path.push(clone_string(&e.name));
        proof {
            assert(path.deep_view() =~= cut_prefix(old_cur, e@.depth).push(e@.name));
        }
        if e.is_dir {
            cur.push(clone_string(&e.name));
            proof {
                assert(cur.deep_view() =~= cut_prefix(old_cur, e@.depth).push(e@.name));
            }
        }
        proof {
            assert(cur.deep_view() =~= next_prefix(old_cur, e@));
        }
        let ghost old_out = out.deep_view();
        out.push(Action { path, is_dir: e.is_dir });
        proof {
            assert(out.deep_view() =~= old_out.push(target_of(old_cur, e@)));
            lemma_plan_from_push(Seq::empty(), recs.take(k as int), e@);
            assert(recs.take(k as int).push(recs[k as int]) =~= recs.take(k as int + 1));
            assert(out.deep_view() =~= plan_from(Seq::empty(), recs.take(k as int + 1)));
        }
        k = k + 1;
    }
    proof {
        assert(entries.deep_view().take(entries.len() as int) =~= entries.deep_view());
    }
    out
}

/// The records an ordered sequence of lines yields, in order: one per line
/// that parses to a record, none for the lines that parsing skips.
pub open spec fn records_of_lines(lines: Seq<Seq<char>>) -> Seq<Record>
    decreases lines.len(),
{
    if lines.len() == 0 {
        Seq::empty()
    } else {
        let rest = records_of_lines(lines.drop_first());
        match crate::parser::parse_line_spec(lines[0]) {
            Some(r) => seq![r] + rest,
            None => rest,
        }
    }
}

proof fn lemma_records_of_lines_push(lines: Seq<Seq<char>>, l: Seq<char>)
    ensures
        records_of_lines(lines.push(l)) == records_of_lines(lines) + match crate::parser::parse_line_spec(l) {
            Some(r) => seq![r],
            None => Seq::<Record>::empty(),
        },
    decreases lines.len(),
{
    if lines.len() == 0 {
        assert(lines.push(l)[0] == l);
        assert(lines.push(l).drop_first() =~= Seq::<Seq<char>>::empty());
        assert(records_of_lines(Seq::<Seq<char>>::empty()) == Seq::<Record>::empty());
        assert(records_of_lines(lines) == Seq::<Record>::empty());
        assert(records_of_lines(lines.push(l)) =~= records_of_lines(lines) + match crate::parser::parse_line_spec(
            l,
        ) {
            Some(r) => seq![r],
            None => Seq::<Record>::empty(),
        });
    } else {
        let rest = lines.drop_first();
        let tail = match crate::parser::parse_line_spec(l) {
            Some(r) => seq![r],
            None => Seq::<Record>::empty(),
        };
        assert(lines.push(l)[0] == lines[0]);
        assert(lines.push(l).drop_first() =~= rest.push(l));
        lemma_records_of_lines_push(rest, l);
        assert(records_of_lines(rest.push(l)) == records_of_lines(rest) + tail);
        match crate::parser::parse_line_spec(lines[0]) {
            Some(r0) => {
                assert(records_of_lines(lines.push(l)) == seq![r0] + (records_of_lines(rest)
                    + tail));
                assert(records_of_lines(lines) == seq![r0] + records_of_lines(rest));
                assert(seq![r0] + (records_of_lines(rest) + tail) =~= (seq![r0]
                    + records_of_lines(rest)) + tail);
            },
            None => {
                assert(records_of_lines(lines.push(l)) == records_of_lines(rest) + tail);
                assert(records_of_lines(lines) == records_of_lines(rest));
            },
        }
    }
}

/// Parses every line of a listing in order and plans the scaffold that the
/// accepted lines describe.
pub fn plan_listing(lines: &Vec<String>) -> (acts: Vec<Action>)
    ensures
        acts.deep_view() == plan(records_of_lines(lines.deep_view())),
{
    let mut entries: Vec<Entry> = Vec::new();
    let mut k: usize = 0;
    proof {
        assert(lines.deep_view().take(0) =~= Seq::<Seq<char>>::empty());
        assert(entries.deep_view() =~= records_of_lines(Seq::<Seq<char>>::empty()));
    }
    while k < lines.len()
        invariant
            k <= lines.len(),
            lines.deep_view().len() == lines.len(),
            entries.deep_view() == records_of_lines(lines.deep_view().take(k as int)),
        decreases lines.len() - k,
    {
        let ghost lns = lines.deep_view();
        let ghost old_entries = entries.deep_view();
        assert(lns[k as int] == lines@[k as int]@);
        if let Some(e) = crate::parser::parse_tree_line(lines[k].as_str()) {
            entries.push(e);
            proof {
                assert(entries.deep_view() =~= old_entries.push(e@));
            }
        }
        proof {
            lemma_records_of_lines_push(lns.take(k as int), lns[k as int]);
            assert(lns.take(k as int).push(lns[k as int]) =~= lns.take(k as int + 1));
            assert(entries.deep_view() =~= records_of_lines(lns.take(k as int + 1)));
        }
        k = k + 1;
    }
    proof {
        assert(lines.deep_view().take(lines.len() as int) =~= lines.deep_view());
    }
    plan_scaffold(&entries)
}

/// What carrying out one creation writes into an abstract file tree, a map
/// from a path (segments below the root) to its kind, `true` for a
/// directory and `false` for an empty file: every proper prefix of the
/// target path, the root included, becomes a directory (missing ancestors
/// are created, existing ones are left as directories), and the target
/// itself gets the record's kind — a file is created empty, truncating
/// whatever was there.
pub open spec fn writes_of(a: Target) -> Map<Seq<Seq<char>>, bool> {
    Map::new(
        |q: Seq<Seq<char>>| q.len() <= a.path.len() && q == a.path.take(q.len() as int),
        |q: Seq<Seq<char>>| a.is_dir || q.len() < a.path.len(),
    )
}

/// The abstract tree after one creation: its writes overwrite the prior
/// kinds, everything else keeps its kind.
pub open spec fn apply_target(t: Map<Seq<Seq<char>>, bool>, a: Target) -> Map<
    Seq<Seq<char>>,
    bool,
> {
    t.union_prefer_right(writes_of(a))
}

/// The abstract tree after a whole plan is carried out, in order.
pub open spec fn apply_plan(t: Map<Seq<Seq<char>>, bool>, acts: Seq<Target>) -> Map<
    Seq<Seq<char>>,
    bool,
> decreases acts.len(),
{
    if acts.len() == 0 {
        t
    } else {
        apply_plan(apply_target(t, acts[0]), acts.drop_first())
    }
}

/// All the writes of a plan, later creations overriding earlier ones.
spec fn writes_seq(acts: Seq<Target>) -> Map<Seq<Seq<char>>, bool>
    decreases acts.len(),
{
    if acts.len() == 0 {
        Map::empty()
    } else {
        writes_of(acts[0]).union_prefer_right(writes_seq(acts.drop_first()))
    }
}

proof fn lemma_apply_plan_is_union(t: Map<Seq<Seq<char>>, bool>, acts: Seq<Target>)
    ensures
        apply_plan(t, acts) == t.union_prefer_right(writes_seq(acts)),
    decreases acts.len(),
{
    if acts.len() == 0 {
        assert(t.union_prefer_right(Map::<Seq<Seq<char>>, bool>::empty()) =~= t);
    } else {
        lemma_apply_plan_is_union(apply_target(t, acts[0]), acts.drop_first());
        assert(t.union_prefer_right(writes_of(acts[0])).union_prefer_right(
            writes_seq(acts.drop_first()),
        ) =~= t.union_prefer_right(
            writes_of(acts[0]).union_prefer_right(writes_seq(acts.drop_first())),
        ));
    }
}

/// Running the builder twice against the same root with the same records
/// leaves the same final tree: each creation writes fixed kinds at fixed
/// paths (directories unchanged, files truncated to empty again), so
/// replaying the plan over the tree it already built changes nothing.
pub proof fn lemma_plan_idempotent(t: Map<Seq<Seq<char>>, bool>, records: Seq<Record>)
    ensures
        apply_plan(apply_plan(t, plan(records)), plan(records)) == apply_plan(t, plan(records)),
{
    let acts = plan(records);
    let w = writes_seq(acts);
    lemma_apply_plan_is_union(t, acts);
    lemma_apply_plan_is_union(t.union_prefer_right(w), acts);
    assert(t.union_prefer_right(w).union_prefer_right(w) =~= t.union_prefer_right(w));
}

} // verus!
