//! Review and keepers trees: which copies a tree should hold, where each lands,
//! and the accounting of a copy run.  The copying itself is file I/O done by the
//! caller; everything decided here is a function of plain values.
use vstd::prelude::*;
use crate::develop::{expected_spec, is_expected, SweepAction};
use crate::names::{deduped, record_name, taken_in, DirNames};
use crate::path::{
    components, components_eq, components_spec, file_name, file_name_spec, join, join_spec, replace_all,
    replace_spec,
};
use crate::text::{push_char, push_str, push_zero_padded_signed, str_eq, zero_padded_signed};

verus! {

/// One flagged photo as the catalog reports it for the review tree.
///
/// `confidence_bits` is the IEEE-754 bit pattern of the flag's `f32`
/// confidence (`f32::to_bits`).
pub struct ReviewEntry {
    pub file_id: i64,
    pub path: String,
    pub flag_type: String,
    pub confidence_bits: u32,
    pub year_month: String,
}

/// One duplicate group as the catalog reports it for the review tree.
pub struct ReviewGroup {
    pub group_id: i64,
    pub date: String,
    pub keeper: Option<String>,
    pub others: Vec<String>,
}

/// One kept photo for the keepers tree.
#[derive(Clone)]
pub struct KeeperFile {
    pub path: String,
    /// `YYYY-MM` from the capture date, or `unknown-date`.
    pub year_month: String,
}

/// A single copy the tree should contain.
pub struct PlannedLink {
    /// Directory relative to the output root, e.g. `rejected/blur/2023-06`.
    pub rel_dir: String,
    /// Path of the original photo the copy is made from.
    pub original: String,
}

impl View for PlannedLink {
    type V = (Seq<char>, Seq<char>);

    open spec fn view(&self) -> (Seq<char>, Seq<char>) {
        (self.rel_dir@, self.original@)
    }
}

/// The `f32` whose bits are `bits` compares `>= 0.6` (the confidence at which
/// a flag counts as a confident rejection): a non-negative, non-NaN value at or
/// above `0x3F19999A`, the bit pattern of `0.6f32`.
pub open spec fn confident(bits: u32) -> bool {
    0x3F19_999A <= bits <= 0x7F80_0000
}

/// Rejected-subfolder name for a known flag type.
pub open spec fn flag_subfolder(flag: Seq<char>) -> Option<Seq<char>> {
    if flag == "blur"@ {
        Some("blur"@)
    } else if flag == "back_focus"@ {
        Some("back_focus"@)
    } else if flag == "overexposed"@ {
        Some("overexposed"@)
    } else if flag == "underexposed"@ {
        Some("underexposed"@)
    } else if flag == "low_iqa"@ {
        Some("low_quality"@)
    } else {
        None
    }
}

/// `(top-level category, rejected subfolder)` for a flag; the subfolder is
/// empty for `uncertain`, and unknown flag types have no category.
pub open spec fn category_spec(flag: Seq<char>, bits: u32) -> Option<(Seq<char>, Seq<char>)> {
    match flag_subfolder(flag) {
        Some(sub) => if confident(bits) {
            Some(("rejected"@, sub))
        } else {
            Some(("uncertain"@, Seq::empty()))
        },
        None => None,
    }
}

/// Map a flag to `(top_level_category, rejected_subfolder)`; `None` for
/// unknown flag types, and an empty subfolder for `uncertain`.
pub fn category_of(flag_type: &str, confidence_bits: u32) -> (r: Option<(&'static str, &'static str)>)
    ensures
        match r {
            Some((top, sub)) => category_spec(flag_type@, confidence_bits) == Some((top@, sub@)),
            None => category_spec(flag_type@, confidence_bits) is None,
        },
{
    let sub: &'static str = if str_eq(flag_type, "blur") {
        "blur"
    } else if str_eq(flag_type, "back_focus") {
        "back_focus"
    } else if str_eq(flag_type, "overexposed") {
        "overexposed"
    } else if str_eq(flag_type, "underexposed") {
        "underexposed"
    } else if str_eq(flag_type, "low_iqa") {
        "low_quality"
    } else {
        return None;
    };
    if 0x3F19_999Au32 <= confidence_bits && confidence_bits <= 0x7F80_0000u32 {
        Some(("rejected", sub))
    } else {
        proof {
            reveal_strlit("");
        }
        Some(("uncertain", ""))
    }
}

/// `categories` is empty (everything wanted) or names `top`.
pub open spec fn wants(categories: Seq<Seq<char>>, top: Seq<char>) -> bool {
    categories.len() == 0 || categories.contains(top)
}

/// The views of a list of strings.
pub open spec fn views(v: Seq<String>) -> Seq<Seq<char>> {
    v.map_values(|s: String| s@)
}

fn wants_exec(categories: &[String], top: &str) -> (r: bool)
    ensures
        r == wants(views(categories@), top@),
{
    if categories.len() == 0 {
        return true;
    }
    for i in 0..categories.len()
        invariant
            forall|j: int| 0 <= j < i ==> (#[trigger] categories@[j])@ != top@,
    {
        if str_eq(categories[i].as_str(), top) {
            proof {
                assert(views(categories@)[i as int] == top@);
            }
            return true;
        }
    }
    proof {
        if views(categories@).contains(top@) {
            let j = choose|j: int| 0 <= j < views(categories@).len() && views(categories@)[j] == top@;
            assert(categories@[j]@ == top@);
        }
    }
    false
}

/// The copy a flagged entry contributes, if its category is known and wanted.
pub open spec fn entry_link(e: ReviewEntry, categories: Seq<Seq<char>>) -> Option<
    (Seq<char>, Seq<char>),
> {
    match category_spec(e.flag_type@, e.confidence_bits) {
        Some((top, sub)) => if wants(categories, top) {
            Some(
                (
                    if sub.len() == 0 {
                        join_spec(top, e.year_month@)
                    } else {
                        join_spec(join_spec(top, sub), e.year_month@)
                    },
                    e.path@,
                ),
            )
        } else {
            None
        },
        None => None,
    }
}

/// The copies contributed by the flagged entries, in order.
pub open spec fn entry_links(es: Seq<ReviewEntry>, categories: Seq<Seq<char>>) -> Seq<
    (Seq<char>, Seq<char>),
>
    decreases es.len(),
{
    if es.len() == 0 {
        Seq::empty()
    } else {
        entry_links(es.drop_last(), categories) + match entry_link(es.last(), categories) {
            Some(l) => seq![l],
            None => Seq::empty(),
        }
    }
}

/// `duplicates/group_{id:05}_{date}`.
pub open spec fn group_dir(g: ReviewGroup) -> Seq<char> {
    join_spec("duplicates"@, "group_"@ + zero_padded_signed(g.group_id as int, 5) + "_"@ + g.date@)
}

/// The keeper's copy, if the group has a keeper.
pub open spec fn keeper_link(g: ReviewGroup) -> Seq<(Seq<char>, Seq<char>)> {
    match g.keeper {
        Some(k) => seq![(join_spec(group_dir(g), "_keeper"@), k@)],
        None => Seq::empty(),
    }
}

/// The copies of one duplicate group: its keeper under `_keeper`, the rest
/// under `_others`.
pub open spec fn group_links(g: ReviewGroup) -> Seq<(Seq<char>, Seq<char>)> {
    keeper_link(g) + g.others@.map_values(|o: String| (join_spec(group_dir(g), "_others"@), o@))
}

pub open spec fn groups_links(gs: Seq<ReviewGroup>) -> Seq<(Seq<char>, Seq<char>)>
    decreases gs.len(),
{
    if gs.len() == 0 {
        Seq::empty()
    } else {
        groups_links(gs.drop_last()) + group_links(gs.last())
    }
}

/// Everything the review tree should contain for the given categories filter
/// (empty = every category).
pub open spec fn plan_spec(
    es: Seq<ReviewEntry>,
    gs: Seq<ReviewGroup>,
    categories: Seq<Seq<char>>,
) -> Seq<(Seq<char>, Seq<char>)> {
    entry_links(es, categories) + if wants(categories, "duplicates"@) {
        groups_links(gs)
    } else {
        Seq::empty()
    }
}

pub open spec fn link_views(v: Seq<PlannedLink>) -> Seq<(Seq<char>, Seq<char>)> {
    v.map_values(|l: PlannedLink| l@)
}

fn clone_string(s: &String) -> (r: String)
    ensures
        r@ == s@,
{
    s.clone()
}

/// The directory of a duplicate group, relative to the tree root.
fn group_dir_exec(g: &ReviewGroup) -> (r: String)
    ensures
        r@ == group_dir(*g),
{
    let mut name = String::new();
    push_str(&mut name, "group_");
    push_zero_padded_signed(&mut name, g.group_id, 5);
    push_str(&mut name, "_");
    push_str(&mut name, g.date.as_str());
    join("duplicates", name.as_str())
}

/// Build the full list of copies the review tree should contain, honoring
/// `categories` (empty = all top-level categories).
pub fn plan_links(entries: &[ReviewEntry], groups: &[ReviewGroup], categories: &[String]) -> (links: Vec<
    PlannedLink,
>)
    ensures
        link_views(links@) == plan_spec(entries@, groups@, views(categories@)),
{
    let ghost inc = views(categories@);
    let mut links: Vec<PlannedLink> = Vec::new();
    for i in 0..entries.len()
        invariant
            inc == views(categories@),
            link_views(links@) == entry_links(entries@.take(i as int), inc),
    {
        let e = &entries[i];
        proof {
            assert(entries@.take(i + 1).drop_last() =~= entries@.take(i as int));
            assert(entries@.take(i + 1).last() == entries@[i as int]);
        }
        match category_of(e.flag_type.as_str(), e.confidence_bits) {
            Some((top, subfolder)) => {
                if wants_exec(categories, top) {
                    let rel_dir = if subfolder.is_empty() {
                        join(top, e.year_month.as_str())
                    } else {
                        let d = join(top, subfolder);
                        join(d.as_str(), e.year_month.as_str())
                    };
                    let ghost before = link_views(links@);
                    proof {
                        assert(entry_link(*e, inc) == Some((rel_dir@, e.path@)));
                    }
                    links.push(PlannedLink { rel_dir, original: clone_string(&e.path) });
                    proof {
                        assert(link_views(links@) =~= before.push(links@.last()@));
                    }
                } else {
                    proof {
                        assert(entry_link(*e, inc) is None);
                        assert(link_views(links@) =~= link_views(links@) + Seq::<(Seq<char>, Seq<char>)>::empty());
                    }
                }
            },
            None => {
                proof {
                    assert(entry_link(*e, inc) is None);
                    assert(link_views(links@) =~= link_views(links@) + Seq::<(Seq<char>, Seq<char>)>::empty());
                }
            },
        }
    }
    proof {
        assert(entries@.take(entries@.len() as int) =~= entries@);
    }
    let ghost after_entries = link_views(links@);
    if wants_exec(categories, "duplicates") {
        for gi in 0..groups.len()
            invariant
                link_views(links@) == after_entries + groups_links(groups@.take(gi as int)),
        {
            let g = &groups[gi];
            let gdir = group_dir_exec(g);
            let ghost before = link_views(links@);
            proof {
                assert(groups@.take(gi + 1).drop_last() =~= groups@.take(gi as int));
                assert(groups@.take(gi + 1).last() == groups@[gi as int]);
            }
            let ghost keeper_part = keeper_link(*g);
            match &g.keeper {
                Some(k) => {
                    let d = join(gdir.as_str(), "_keeper");
                    links.push(PlannedLink { rel_dir: d, original: clone_string(k) });
                },
                None => {},
            }
            proof {
                assert(link_views(links@) =~= before + keeper_part);
            }
            let ghost mid = link_views(links@);
            for oi in 0..g.others.len()
                invariant
                    link_views(links@) == mid + g.others@.take(oi as int).map_values(
                        |o: String| (join_spec(group_dir(*g), "_others"@), o@),
                    ),
                    gdir@ == group_dir(*g),
            {
                let d = join(gdir.as_str(), "_others");
                let ghost b2 = link_views(links@);
                links.push(PlannedLink { rel_dir: d, original: clone_string(&g.others[oi]) });
                proof {
                    assert(g.others@.take(oi + 1).map_values(
                        |o: String| (join_spec(group_dir(*g), "_others"@), o@),
                    ) =~= g.others@.take(oi as int).map_values(
                        |o: String| (join_spec(group_dir(*g), "_others"@), o@),
                    ).push((join_spec(group_dir(*g), "_others"@), g.others@[oi as int]@)));
                    assert(link_views(links@) =~= b2.push(links@.last()@));
                }
            }
            proof {
                assert(g.others@.take(g.others@.len() as int) =~= g.others@);
                assert(link_views(links@) =~= before + group_links(*g));
            }
        }
        proof {
            assert(groups@.take(groups@.len() as int) =~= groups@);
        }
    } else {
        proof {
            assert(link_views(links@) =~= after_entries + Seq::<(Seq<char>, Seq<char>)>::empty());
        }
    }
    links
}


/// `d` lies in a top-level directory that `categories` names.
pub open spec fn under_wanted(categories: Seq<Seq<char>>, d: Seq<char>) -> bool {
    components_spec(d).len() > 0 && categories.contains(components_spec(d)[0])
}

/// `top/...`: joining onto a plain name gives that name, a `/`, and the rest,
/// unless the joined part is absolute.
proof fn lemma_join_under(top: Seq<char>, x: Seq<char>)
    requires
        crate::path::is_plain_name(top),
        !(x.len() > 0 && x[0] == '/'),
    ensures
        exists|rest: Seq<char>| join_spec(top, x) == top + seq!['/'] + rest,
{
    assert(top.last() == top[top.len() - 1]);
    assert(join_spec(top, x) == top + seq!['/'] + x);
}

proof fn lemma_entry_link_under(e: ReviewEntry, categories: Seq<Seq<char>>)
    requires
        categories.len() > 0,
        !(e.year_month@.len() > 0 && e.year_month@[0] == '/'),
        entry_link(e, categories) is Some,
    ensures
        under_wanted(categories, entry_link(e, categories).unwrap().0),
{
    reveal_strlit("rejected");
    reveal_strlit("uncertain");
    reveal_strlit("blur");
    reveal_strlit("back_focus");
    reveal_strlit("overexposed");
    reveal_strlit("underexposed");
    reveal_strlit("low_quality");
    let c = category_spec(e.flag_type@, e.confidence_bits).unwrap();
    let top = c.0;
    let sub = c.1;
    assert(crate::path::is_plain_name(top)) by {
        assert(top.len() > 1);
    }
    if sub.len() == 0 {
        lemma_join_under(top, e.year_month@);
        let rest = choose|rest: Seq<char>| join_spec(top, e.year_month@) == top + seq!['/'] + rest;
        crate::path::lemma_first_component(top, rest);
    } else {
        assert(crate::path::is_plain_name(sub)) by {
            assert(sub.len() > 1);
        }
        let ts = join_spec(top, sub);
        assert(ts == top + seq!['/'] + sub);
        assert(ts.last() == sub.last());
        assert(join_spec(ts, e.year_month@) == top + seq!['/'] + (sub + seq!['/'] + e.year_month@));
        crate::path::lemma_first_component(top, sub + seq!['/'] + e.year_month@);
    }
}

proof fn lemma_entry_links_under(es: Seq<ReviewEntry>, categories: Seq<Seq<char>>)
    requires
        categories.len() > 0,
        forall|i: int| 0 <= i < es.len() ==> !((#[trigger] es[i]).year_month@.len() > 0 && es[i].year_month@[0] == '/'),
    ensures
        forall|k: int| 0 <= k < entry_links(es, categories).len() ==> under_wanted(
            categories,
            (#[trigger] entry_links(es, categories)[k]).0,
        ),
    decreases es.len(),
{
    if es.len() > 0 {
        let p = es.drop_last();
        assert forall|i: int| 0 <= i < p.len() implies !((#[trigger] p[i]).year_month@.len() > 0 && p[i].year_month@[0] == '/') by {
            assert(p[i] == es[i]);
        }
        lemma_entry_links_under(p, categories);
        let e = es.last();
        assert(e == es[es.len() - 1]);
        if entry_link(e, categories) is Some {
            lemma_entry_link_under(e, categories);
        }
        let all = entry_links(es, categories);
        let prev = entry_links(p, categories);
        assert forall|k: int| 0 <= k < all.len() implies under_wanted(categories, (#[trigger] all[k]).0) by {
            if k < prev.len() {
                assert(all[k] == prev[k]);
            }
        }
    }
}

proof fn lemma_groups_links_under(gs: Seq<ReviewGroup>)
    ensures
        forall|k: int| 0 <= k < groups_links(gs).len() ==> components_spec((#[trigger] groups_links(gs)[k]).0)
            .len() > 0 && components_spec(groups_links(gs)[k].0)[0] == "duplicates"@,
    decreases gs.len(),
{
    reveal_strlit("duplicates");
    reveal_strlit("_keeper");
    reveal_strlit("_others");
    reveal_strlit("group_");
    reveal_strlit("_");
    if gs.len() > 0 {
        lemma_groups_links_under(gs.drop_last());
        let g = gs.last();
        let name = "group_"@ + zero_padded_signed(g.group_id as int, 5) + "_"@ + g.date@;
        assert(name[0] == 'g');
        let gd = group_dir(g);
        assert(gd == "duplicates"@ + seq!['/'] + name);
        let dup = "duplicates"@;
        assert(crate::path::is_plain_name(dup)) by {
            assert(dup.len() > 1);
        }
        if gd.last() != '/' {
            assert(join_spec(gd, "_keeper"@) =~= dup + seq!['/'] + (name + seq!['/'] + "_keeper"@));
            assert(join_spec(gd, "_others"@) =~= dup + seq!['/'] + (name + seq!['/'] + "_others"@));
            crate::path::lemma_first_component(dup, name + seq!['/'] + "_keeper"@);
            crate::path::lemma_first_component(dup, name + seq!['/'] + "_others"@);
        } else {
            assert(join_spec(gd, "_keeper"@) =~= dup + seq!['/'] + (name + "_keeper"@));
            assert(join_spec(gd, "_others"@) =~= dup + seq!['/'] + (name + "_others"@));
            crate::path::lemma_first_component(dup, name + "_keeper"@);
            crate::path::lemma_first_component(dup, name + "_others"@);
        }
        let all = groups_links(gs);
        let prev = groups_links(gs.drop_last());
        let mine = group_links(g);
        assert forall|k: int| 0 <= k < all.len() implies components_spec((#[trigger] all[k]).0).len() > 0
            && components_spec(all[k].0)[0] == "duplicates"@ by {
            if k < prev.len() {
                assert(all[k] == prev[k]);
            } else {
                let m = mine[k - prev.len()];
                assert(all[k] == m);
                assert(m.0 == join_spec(gd, "_keeper"@) || m.0 == join_spec(gd, "_others"@));
            }
        }
    }
}

/// A category filter is honored: with a non-empty filter, every planned copy
/// sits in a top-level directory (`rejected`, `uncertain` or `duplicates`)
/// that the filter names.  (A capture month that is itself an absolute path
/// would escape the tree, so such entries are left out.)
pub proof fn lemma_plan_honors_categories(es: Seq<ReviewEntry>, gs: Seq<ReviewGroup>, categories: Seq<Seq<char>>)
    requires
        categories.len() > 0,
        forall|i: int| 0 <= i < es.len() ==> !((#[trigger] es[i]).year_month@.len() > 0 && es[i].year_month@[0] == '/'),
    ensures
        forall|k: int| 0 <= k < plan_spec(es, gs, categories).len() ==> under_wanted(
            categories,
            (#[trigger] plan_spec(es, gs, categories)[k]).0,
        ),
{
    lemma_entry_links_under(es, categories);
    lemma_groups_links_under(gs);
    let el = entry_links(es, categories);
    let p = plan_spec(es, gs, categories);
    assert forall|k: int| 0 <= k < p.len() implies under_wanted(categories, (#[trigger] p[k]).0) by {
        if k < el.len() {
            assert(p[k] == el[k]);
        } else {
            assert(wants(categories, "duplicates"@));
            assert(p[k] == groups_links(gs)[k - el.len()]);
        }
    }
}

/// The name a copy of `original` gets: its file name, or `unnamed`.
pub open spec fn base_name(original: Seq<char>) -> Seq<char> {
    match file_name_spec(original) {
        Some(n) => n,
        None => "unnamed"@,
    }
}

/// Destinations for the planned copies, in order, together with the names
/// taken so far in each directory (keyed by the directory's path components,
/// so two spellings of one directory share their names).
pub open spec fn resolve_state(root: Seq<char>, ps: Seq<(Seq<char>, Seq<char>)>) -> (
    Seq<(Seq<char>, Seq<char>)>,
    Map<Seq<Seq<char>>, Set<Seq<char>>>,
)
    decreases ps.len(),
{
    if ps.len() == 0 {
        (Seq::empty(), Map::empty())
    } else {
        let prev = resolve_state(root, ps.drop_last());
        let l = ps.last();
        let dir = join_spec(root, l.0);
        let key = components_spec(dir);
        let name = deduped(taken_in(prev.1, key), base_name(l.1));
        (prev.0.push((join_spec(dir, name), l.1)), record_name(prev.1, key, name))
    }
}

proof fn lemma_base_name_plain(original: Seq<char>)
    ensures
        crate::path::is_plain_name(base_name(original)),
{
    reveal_strlit("unnamed");
    if file_name_spec(original) is Some {
        crate::path::lemma_file_name_plain(original, original.len() as int);
    } else {
        let u = "unnamed"@;
        assert(u.len() == 7);
        assert(u != seq!['.']);
    }
}

/// What resolving keeps true: each destination's last component is a name
/// taken in the directory its other components name, every directory's set
/// of names is finite, and no two destinations are the same path.
spec fn resolve_inv(root: Seq<char>, ps: Seq<(Seq<char>, Seq<char>)>) -> bool {
    let out = resolve_state(root, ps).0;
    let m = resolve_state(root, ps).1;
    &&& out.len() == ps.len()
    &&& forall|k: Seq<Seq<char>>| #[trigger] m.dom().contains(k) ==> m[k].finite()
    &&& forall|i: int|
        0 <= i < out.len() ==> {
            let c = components_spec(#[trigger] out[i].0);
            c.len() > 0 && m.dom().contains(c.drop_last()) && m[c.drop_last()].contains(c.last())
        }
    &&& forall|i: int, j: int|
        0 <= i < j < out.len() ==> components_spec(#[trigger] out[i].0) != components_spec(
            #[trigger] out[j].0,
        )
}

proof fn lemma_resolve_inv(root: Seq<char>, ps: Seq<(Seq<char>, Seq<char>)>)
    ensures
        resolve_inv(root, ps),
    decreases ps.len(),
{
    if ps.len() > 0 {
        let q = ps.drop_last();
        lemma_resolve_inv(root, q);
        let prev = resolve_state(root, q);
        let l = ps.last();
        let dir = join_spec(root, l.0);
        let key = components_spec(dir);
        let taken = taken_in(prev.1, key);
        let name = deduped(taken, base_name(l.1));
        lemma_base_name_plain(l.1);
        crate::names::lemma_deduped_plain(taken, base_name(l.1));
        crate::path::lemma_components_join(dir, name);
        assert(taken.finite());
        crate::names::lemma_deduped_fresh(taken, base_name(l.1));
        let out = resolve_state(root, ps).0;
        let m = resolve_state(root, ps).1;
        assert(out == prev.0.push((join_spec(dir, name), l.1)));
        assert(m == record_name(prev.1, key, name));
        let cn = components_spec(join_spec(dir, name));
        assert(cn == key.push(name));
        assert(cn.drop_last() =~= key);
        assert(cn.last() == name);
        assert forall|k: Seq<Seq<char>>| #[trigger] m.dom().contains(k) implies m[k].finite() by {
            if k != key {
                assert(prev.1.dom().contains(k));
            }
        }
        assert forall|i: int| 0 <= i < out.len() implies ({
            let c = components_spec(#[trigger] out[i].0);
            c.len() > 0 && m.dom().contains(c.drop_last()) && m[c.drop_last()].contains(c.last())
        }) by {
            if i < prev.0.len() {
                assert(out[i] == prev.0[i]);
                let c = components_spec(prev.0[i].0);
                assert(prev.1.dom().contains(c.drop_last()));
            }
        }
        assert forall|i: int, j: int| 0 <= i < j < out.len() implies components_spec(
            #[trigger] out[i].0,
        ) != components_spec(#[trigger] out[j].0) by {
            assert(out[i] == prev.0[i]);
            if j < prev.0.len() {
                assert(out[j] == prev.0[j]);
            } else {
                let c = components_spec(prev.0[i].0);
                assert(prev.1.dom().contains(c.drop_last()));
                if c == cn {
                    assert(c.drop_last() == key);
                    assert(prev.1[key].contains(name));
                }
            }
        }
    }
}

/// No two planned copies land on the same path: within each directory every
/// copy gets a name not yet taken there, so however the planned directories
/// are spelled, the destinations are pairwise different paths.
pub proof fn lemma_resolve_dests_distinct(root: Seq<char>, ps: Seq<(Seq<char>, Seq<char>)>)
    ensures
        resolve_state(root, ps).0.len() == ps.len(),
        forall|i: int, j: int|
            0 <= i < j < resolve_state(root, ps).0.len() ==> components_spec(
                #[trigger] resolve_state(root, ps).0[i].0,
            ) != components_spec(#[trigger] resolve_state(root, ps).0[j].0),
{
    lemma_resolve_inv(root, ps);
}

/// Each copy keeps the original it was planned from.
pub proof fn lemma_resolve_keeps_sources(root: Seq<char>, ps: Seq<(Seq<char>, Seq<char>)>)
    ensures
        resolve_state(root, ps).0.len() == ps.len(),
        forall|i: int| 0 <= i < ps.len() ==> (#[trigger] resolve_state(root, ps).0[i]).1 == ps[i].1,
    decreases ps.len(),
{
    lemma_resolve_inv(root, ps);
    if ps.len() > 0 {
        lemma_resolve_keeps_sources(root, ps.drop_last());
        assert forall|i: int| 0 <= i < ps.len() implies (#[trigger] resolve_state(root, ps).0[i]).1 == ps[i].1 by {
            if i < ps.len() - 1 {
                assert(resolve_state(root, ps).0[i] == resolve_state(root, ps.drop_last()).0[i]);
                assert(ps.drop_last()[i] == ps[i]);
            }
        }
    }
}

pub open spec fn pair_views(v: Seq<(String, String)>) -> Seq<(Seq<char>, Seq<char>)> {
    v.map_values(|p: (String, String)| (p.0@, p.1@))
}

/// Resolve the destination path of each planned copy under `output_root`,
/// de-duplicating basenames per directory.  Returns `(dest, original)` pairs.
pub fn resolve_dests(output_root: &str, planned: &[PlannedLink]) -> (out: Vec<(String, String)>)
    requires
        planned@.len() < 0xffff_fff0,
    ensures
        pair_views(out@) == resolve_state(output_root@, link_views(planned@)).0,
{
    let ghost ps = link_views(planned@);
    let mut names = DirNames::new();
    let mut out: Vec<(String, String)> = Vec::new();
    proof {
        assert(ps.take(0) =~= Seq::<(Seq<char>, Seq<char>)>::empty());
        assert(pair_views(out@) =~= Seq::<(Seq<char>, Seq<char>)>::empty());
    }
    for i in 0..planned.len()
        invariant
            planned@.len() < 0xffff_fff0,
            ps == link_views(planned@),
            pair_views(out@) == resolve_state(output_root@, ps.take(i as int)).0,
            names@ == resolve_state(output_root@, ps.take(i as int)).1,
            names.wf(),
            names.given() == i,
    {
        let link = &planned[i];
        proof {
            assert(ps.take(i + 1).drop_last() =~= ps.take(i as int));
            assert(ps.take(i + 1).last() == link@);
        }
        let abs_dir = join(output_root, link.rel_dir.as_str());
        let basename: String = match file_name(link.original.as_str()) {
            Some(n) => n,
            None => {
                let mut u = String::new();
                push_str(&mut u, "unnamed");
                u
            },
        };
        let name = names.dedupe_in(abs_dir.as_str(), basename.as_str());
        let dest = join(abs_dir.as_str(), name.as_str());
        let ghost before_out = pair_views(out@);
        out.push((dest, clone_string(&link.original)));
        proof {
            assert(pair_views(out@) =~= before_out.push((dest@, link.original@)));
        }
    }
    proof {
        assert(ps.take(planned@.len() as int) =~= ps);
    }
    out
}


/// The keepers tree: each kept file under its capture month.
pub open spec fn keepers_spec(ks: Seq<KeeperFile>) -> Seq<(Seq<char>, Seq<char>)> {
    ks.map_values(|k: KeeperFile| (k.year_month@, k.path@))
}

/// Plan the keepers copy set (kept files go to `<YYYY-MM>/<name>`).
pub fn keepers_plan(keepers: Vec<KeeperFile>) -> (links: Vec<PlannedLink>)
    ensures
        link_views(links@) == keepers_spec(keepers@),
{
    let mut links: Vec<PlannedLink> = Vec::new();
    for i in 0..keepers.len()
        invariant
            link_views(links@) == keepers_spec(keepers@.take(i as int)),
    {
        let k = &keepers[i];
        let ghost before = link_views(links@);
        links.push(PlannedLink { rel_dir: clone_string(&k.year_month), original: clone_string(&k.path) });
        proof {
            assert(keepers_spec(keepers@.take(i + 1)) =~= keepers_spec(keepers@.take(i as int)).push(
                (keepers@[i as int].year_month@, keepers@[i as int].path@),
            ));
            assert(link_views(links@) =~= before.push(links@.last()@));
        }
    }
    proof {
        assert(keepers@.take(keepers@.len() as int) =~= keepers@);
    }
    links
}

/// Replace a literal `<library>` token in `template` with `scan_root`.
pub fn substitute_library(template: &str, scan_root: &str) -> (r: String)
    ensures
        r@ == replace_spec(template@, "<library>"@, scan_root@),
{
    proof {
        reveal_strlit("<library>");
    }
    replace_all(template, "<library>", scan_root)
}

/// The review tree's README body.
pub open spec fn review_readme_spec(db: Seq<char>) -> Seq<char> {
    "PhotoPipe Review Tree\n=====================\n\nThis directory was generated by photopipe and contains COPIES of flagged photos.\nYour originals are untouched; the catalog at "@
        + db + " is the source of truth.\nThis tree is safe to delete and can be rebuilt.\n"@
}

/// The review tree's README body, naming where the catalog lives.
pub fn review_readme_body(db_path_hint: &str) -> (r: String)
    ensures
        r@ == review_readme_spec(db_path_hint@),
{
    let mut s = String::new();
    push_str(
        &mut s,
        "PhotoPipe Review Tree\n=====================\n\nThis directory was generated by photopipe and contains COPIES of flagged photos.\nYour originals are untouched; the catalog at ",
    );
    push_str(&mut s, db_path_hint);
    push_str(&mut s, " is the source of truth.\nThis tree is safe to delete and can be rebuilt.\n");
    s
}

/// The keepers tree's README body.
pub fn keepers_readme() -> (r: &'static str)
    ensures
        r@ == "PhotoPipe Keepers Export\n========================\n\nCOPIES of the photos you kept in the review UI, organized by capture month.\nYour originals are untouched. This tree is regenerated from the catalog and\nis safe to delete.\n"@,
{
    "PhotoPipe Keepers Export\n========================\n\nCOPIES of the photos you kept in the review UI, organized by capture month.\nYour originals are untouched. This tree is regenerated from the catalog and\nis safe to delete.\n"
}

/// The marker file written at the root of every photopipe-managed tree.
pub fn tree_marker() -> (r: &'static str)
    ensures
        r@ == ".photopipe-tree"@,
{
    ".photopipe-tree"
}

/// The single regular file the tool itself writes at the tree root.
pub fn readme_name() -> (r: &'static str)
    ensures
        r@ == "README.txt"@,
{
    "README.txt"
}

/// How many duplicate groups a review tree with this filter holds.
pub fn review_group_count(groups: &[ReviewGroup], categories: &[String]) -> (n: u64)
    ensures
        n == if wants(views(categories@), "duplicates"@) {
            groups@.len()
        } else {
            0
        },
{
    if wants_exec(categories, "duplicates") {
        groups.len() as u64
    } else {
        0
    }
}

/// Summary of a review-tree build.
pub struct ReviewTreeReport {
    pub files_copied: u64,
    pub files_skipped: u64,
    pub files_removed: u64,
    pub bytes_copied: u64,
    pub groups: u64,
    pub errors: u64,
}

impl Default for ReviewTreeReport {
    fn default() -> (r: Self)
        ensures
            r.files_copied == 0 && r.files_skipped == 0 && r.files_removed == 0 && r.bytes_copied
                == 0 && r.groups == 0 && r.errors == 0,
    {
        ReviewTreeReport {
            files_copied: 0,
            files_skipped: 0,
            files_removed: 0,
            bytes_copied: 0,
            groups: 0,
            errors: 0,
        }
    }
}

/// Files and bytes a copy would write (already-current destinations excluded).
pub struct CopyEstimate {
    pub files: u64,
    pub bytes: u64,
}

impl Default for CopyEstimate {
    fn default() -> (r: Self)
        ensures
            r.files == 0 && r.bytes == 0,
    {
        CopyEstimate { files: 0, bytes: 0 }
    }
}

/// Summary of a keepers-tree build.
pub struct KeepersReport {
    pub files_copied: u64,
    pub files_skipped: u64,
    pub files_removed: u64,
    pub bytes_copied: u64,
    pub errors: u64,
}

impl Default for KeepersReport {
    fn default() -> (r: Self)
        ensures
            r.files_copied == 0 && r.files_skipped == 0 && r.files_removed == 0 && r.bytes_copied
                == 0 && r.errors == 0,
    {
        KeepersReport { files_copied: 0, files_skipped: 0, files_removed: 0, bytes_copied: 0, errors: 0 }
    }
}

/// Result of materializing a set of planned copies.
pub struct CopyReport {
    pub copied: u64,
    pub skipped: u64,
    pub removed: u64,
    pub bytes: u64,
    pub errors: u64,
}

/// Outcome of copying one file.
pub enum CopyOutcome {
    /// The file was copied; carries the byte count written.
    Copied(u64),
    /// The destination was already current; nothing written.
    Skipped,
}

impl CopyReport {
    pub fn new() -> (r: Self)
        ensures
            r.copied == 0 && r.skipped == 0 && r.removed == 0 && r.bytes == 0 && r.errors == 0,
    {
        CopyReport { copied: 0, skipped: 0, removed: 0, bytes: 0, errors: 0 }
    }

    /// Count one copy attempt: a copy (and its bytes), a skip, or an error.
    pub fn record(&mut self, outcome: Option<CopyOutcome>)
        requires
            old(self).copied < u64::MAX,
            old(self).skipped < u64::MAX,
            old(self).errors < u64::MAX,
            outcome matches Some(CopyOutcome::Copied(b)) ==> old(self).bytes + b <= u64::MAX,
        ensures
            match outcome {
                Some(CopyOutcome::Copied(b)) => final(self).copied == old(self).copied + 1
                    && final(self).bytes == old(self).bytes + b && final(self).skipped == old(
                    self,
                ).skipped && final(self).errors == old(self).errors,
                Some(CopyOutcome::Skipped) => final(self).skipped == old(self).skipped + 1
                    && final(self).copied == old(self).copied && final(self).bytes == old(
                    self,
                ).bytes && final(self).errors == old(self).errors,
                None => final(self).errors == old(self).errors + 1 && final(self).copied == old(
                    self,
                ).copied && final(self).skipped == old(self).skipped && final(self).bytes == old(
                    self,
                ).bytes,
            },
            final(self).removed == old(self).removed,
    {
        match outcome {
            Some(CopyOutcome::Copied(b)) => {
                self.copied = self.copied + 1;
                self.bytes = self.bytes + b;
            },
            Some(CopyOutcome::Skipped) => {
                self.skipped = self.skipped + 1;
            },
            None => {
                self.errors = self.errors + 1;
            },
        }
    }

    /// Count one pruned file (`true`) or one failed removal (`false`).
    pub fn record_removal(&mut self, removed: bool)
        requires
            old(self).removed < u64::MAX,
            old(self).errors < u64::MAX,
        ensures
            final(self).removed == old(self).removed + if removed {
                1u64
            } else {
                0u64
            },
            final(self).errors == old(self).errors + if removed {
                0u64
            } else {
                1u64
            },
            final(self).copied == old(self).copied,
            final(self).skipped == old(self).skipped,
            final(self).bytes == old(self).bytes,
    {
        if removed {
            self.removed = self.removed + 1;
        } else {
            self.errors = self.errors + 1;
        }
    }
}

/// The review-tree summary of a copy run.
pub fn review_report(core: &CopyReport, groups: u64) -> (r: ReviewTreeReport)
    ensures
        r.files_copied == core.copied && r.files_skipped == core.skipped && r.files_removed
            == core.removed && r.bytes_copied == core.bytes && r.groups == groups && r.errors
            == core.errors,
{
    ReviewTreeReport {
        files_copied: core.copied,
        files_skipped: core.skipped,
        files_removed: core.removed,
        bytes_copied: core.bytes,
        groups,
        errors: core.errors,
    }
}

/// The keepers-tree summary of a copy run.
pub fn keepers_report(core: &CopyReport) -> (r: KeepersReport)
    ensures
        r.files_copied == core.copied && r.files_skipped == core.skipped && r.files_removed
            == core.removed && r.bytes_copied == core.bytes && r.errors == core.errors,
{
    KeepersReport {
        files_copied: core.copied,
        files_skipped: core.skipped,
        files_removed: core.removed,
        bytes_copied: core.bytes,
        errors: core.errors,
    }
}

/// What the file system says about one file: its length, and its modification
/// time as nanoseconds since the Unix epoch when the platform reports one.
#[derive(Clone, Copy)]
pub struct FileStamp {
    pub len: u64,
    pub modified: Option<i128>,
}

/// True if `dest` is missing or differs from `src`: another length, or a newer
/// `src`.  A missing `src` also says "copy" (the copy then fails and is
/// counted as an error); unknown times compare as current.
pub open spec fn needs_copy_spec(dest: Option<FileStamp>, src: Option<FileStamp>) -> bool {
    match (dest, src) {
        (Some(d), Some(s)) => d.len != s.len || match (s.modified, d.modified) {
            (Some(st), Some(dt)) => st > dt,
            _ => false,
        },
        _ => true,
    }
}

pub fn needs_copy(dest: &Option<FileStamp>, src: &Option<FileStamp>) -> (r: bool)
    ensures
        r == needs_copy_spec(*dest, *src),
{
    match (dest, src) {
        (Some(d), Some(s)) => {
            if d.len != s.len {
                return true;
            }
            match (&s.modified, &d.modified) {
                (Some(st), Some(dt)) => *st > *dt,
                _ => false,
            }
        },
        _ => true,
    }
}

impl CopyEstimate {
    /// Count one destination that a copy would write, with its source's size.
    pub fn add(&mut self, bytes: u64)
        requires
            old(self).files < u64::MAX,
            old(self).bytes + bytes <= u64::MAX,
        ensures
            final(self).files == old(self).files + 1,
            final(self).bytes == old(self).bytes + bytes,
    {
        self.files = self.files + 1;
        self.bytes = self.bytes + bytes;
    }
}

/// What the file system reported for the files a copy involves: each path
/// that could be read, with its stamp.  A source path stands for the file it
/// resolves to; a path missing here could not be read.
pub struct DiskView {
    pub stamps: Vec<(String, FileStamp)>,
}

pub open spec fn stamp_views(v: Seq<(String, FileStamp)>) -> Seq<(Seq<char>, FileStamp)> {
    v.map_values(|p: (String, FileStamp)| (p.0@, p.1))
}

/// The stamp recorded for `p` (the first one, should it be listed twice).
pub open spec fn stamp_at(st: Seq<(Seq<char>, FileStamp)>, p: Seq<char>) -> Option<FileStamp>
    decreases st.len(),
{
    if st.len() == 0 {
        None
    } else if st[0].0 == p {
        Some(st[0].1)
    } else {
        stamp_at(st.drop_first(), p)
    }
}

/// `(files, bytes)` a copy of the `(dest, src)` pairs would write: a pair whose
/// source cannot be read is left out, and one whose destination is already
/// current counts nothing.
pub open spec fn estimate_spec(pairs: Seq<(Seq<char>, Seq<char>)>, st: Seq<(Seq<char>, FileStamp)>) -> (
    nat,
    nat,
)
    decreases pairs.len(),
{
    if pairs.len() == 0 {
        (0, 0)
    } else {
        let prev = estimate_spec(pairs.drop_last(), st);
        let (dest, src) = pairs.last();
        match stamp_at(st, src) {
            None => prev,
            Some(s) => if needs_copy_spec(stamp_at(st, dest), Some(s)) {
                ((prev.0 + 1) as nat, (prev.1 + s.len) as nat)
            } else {
                prev
            },
        }
    }
}

proof fn lemma_estimate_grows(pairs: Seq<(Seq<char>, Seq<char>)>, st: Seq<(Seq<char>, FileStamp)>, i: int)
    requires
        0 <= i <= pairs.len(),
    ensures
        estimate_spec(pairs.take(i), st).0 <= estimate_spec(pairs, st).0,
        estimate_spec(pairs.take(i), st).1 <= estimate_spec(pairs, st).1,
        estimate_spec(pairs, st).0 <= pairs.len(),
    decreases pairs.len(),
{
    if pairs.len() > 0 {
        lemma_estimate_grows(pairs.drop_last(), st, if i < pairs.len() { i } else { pairs.len() - 1 });
        if i < pairs.len() {
            assert(pairs.drop_last().take(i) =~= pairs.take(i));
        } else {
            assert(pairs.take(i) =~= pairs);
        }
    }
}

/// `d` reads as a copy of `s`: the same length, written no earlier than `s`
/// was last modified (or with a time the platform does not report).
pub open spec fn written_from(d: FileStamp, s: FileStamp) -> bool {
    d.len == s.len && match (d.modified, s.modified) {
        (Some(dt), Some(st)) => dt >= st,
        _ => true,
    }
}

/// Every readable source of `pairs` already has its copy in place.
pub open spec fn tree_in_step(pairs: Seq<(Seq<char>, Seq<char>)>, st: Seq<(Seq<char>, FileStamp)>) -> bool {
    forall|i: int|
        0 <= i < pairs.len() ==> match stamp_at(st, (#[trigger] pairs[i]).1) {
            None => true,
            Some(s) => match stamp_at(st, pairs[i].0) {
                None => false,
                Some(d) => written_from(d, s),
            },
        }
}

/// Re-running a copy over a tree that is in step with its sources does no
/// work: no file is copied and no byte is written.
pub proof fn lemma_in_step_tree_copies_nothing(pairs: Seq<(Seq<char>, Seq<char>)>, st: Seq<(Seq<char>, FileStamp)>)
    requires
        tree_in_step(pairs, st),
    ensures
        estimate_spec(pairs, st) == (0nat, 0nat),
    decreases pairs.len(),
{
    if pairs.len() > 0 {
        let p = pairs.drop_last();
        assert forall|i: int| 0 <= i < p.len() implies match stamp_at(st, (#[trigger] p[i]).1) {
            None => true,
            Some(s) => match stamp_at(st, p[i].0) {
                None => false,
                Some(d) => written_from(d, s),
            },
        } by {
            assert(p[i] == pairs[i]);
        }
        lemma_in_step_tree_copies_nothing(p, st);
        assert(pairs.last() == pairs[pairs.len() - 1]);
    }
}

pub(crate) fn stamp_lookup(disk: &DiskView, p: &str) -> (r: Option<FileStamp>)
    ensures
        r == stamp_at(stamp_views(disk.stamps@), p@),
{
    let ghost st = stamp_views(disk.stamps@);
    proof {
        assert(st.skip(0) =~= st);
    }
    for i in 0..disk.stamps.len()
        invariant
            st == stamp_views(disk.stamps@),
            stamp_at(st, p@) == stamp_at(st.skip(i as int), p@),
    {
        proof {
            assert(st.skip(i + 1) =~= st.skip(i as int).drop_first());
        }
        if str_eq(disk.stamps[i].0.as_str(), p) {
            return Some(disk.stamps[i].1);
        }
    }
    proof {
        assert(st.skip(st.len() as int) =~= Seq::<(Seq<char>, FileStamp)>::empty());
    }
    None
}

/// Files and bytes a copy of the `(dest, src)` pairs would write, excluding
/// destinations that are already current.
pub fn estimate_copy(pairs: &[(String, String)], disk: &DiskView) -> (r: CopyEstimate)
    requires
        estimate_spec(pair_views(pairs@), stamp_views(disk.stamps@)).1 <= u64::MAX,
    ensures
        (r.files as nat, r.bytes as nat) == estimate_spec(pair_views(pairs@), stamp_views(disk.stamps@)),
{
    let ghost ps = pair_views(pairs@);
    let ghost st = stamp_views(disk.stamps@);
    let mut est = CopyEstimate::default();
    proof {
        assert(ps.take(0) =~= Seq::<(Seq<char>, Seq<char>)>::empty());
    }
    for i in 0..pairs.len()
        invariant
            ps == pair_views(pairs@),
            st == stamp_views(disk.stamps@),
            estimate_spec(ps, st).1 <= u64::MAX,
            (est.files as nat, est.bytes as nat) == estimate_spec(ps.take(i as int), st),
    {
        proof {
            assert(ps.take(i + 1).drop_last() =~= ps.take(i as int));
            assert(ps.take(i + 1).last() == (pairs@[i as int].0@, pairs@[i as int].1@));
            lemma_estimate_grows(ps, st, i + 1);
            lemma_estimate_grows(ps.take(i + 1), st, i + 1);
        }
        let (dest, src) = (&pairs[i].0, &pairs[i].1);
        match stamp_lookup(disk, src.as_str()) {
            None => {},
            Some(s) => {
                let d = stamp_lookup(disk, dest.as_str());
                if needs_copy(&d, &Some(s)) {
                    est.add(s.len);
                }
            },
        }
    }
    proof {
        assert(ps.take(pairs@.len() as int) =~= ps);
    }
    est
}

/// What a build does with one planned copy, from what the file system
/// reported: copy the source (its length in bytes), leave a current
/// destination alone, or count an error for a source that cannot be read.
#[derive(PartialEq, Eq, Structural, Clone, Copy, Debug)]
pub enum CopyStep {
    Copy(u64),
    Skip,
    Missing,
}

pub open spec fn copy_step_spec(dest: Option<FileStamp>, src: Option<FileStamp>) -> CopyStep {
    match src {
        None => CopyStep::Missing,
        Some(s) => if needs_copy_spec(dest, Some(s)) {
            CopyStep::Copy(s.len)
        } else {
            CopyStep::Skip
        },
    }
}

/// The step for each `(dest, src)` pair, in order.
pub open spec fn copy_steps_spec(pairs: Seq<(Seq<char>, Seq<char>)>, st: Seq<(Seq<char>, FileStamp)>) -> Seq<
    CopyStep,
> {
    Seq::new(pairs.len(), |i: int| copy_step_spec(stamp_at(st, pairs[i].0), stamp_at(st, pairs[i].1)))
}

/// The steps of a build of the `(dest, src)` pairs over what `disk` reports.
pub fn copy_steps(pairs: &[(String, String)], disk: &DiskView) -> (r: Vec<CopyStep>)
    ensures
        r@ == copy_steps_spec(pair_views(pairs@), stamp_views(disk.stamps@)),
{
    let ghost ps = pair_views(pairs@);
    let ghost st = stamp_views(disk.stamps@);
    let mut out: Vec<CopyStep> = Vec::new();
    for i in 0..pairs.len()
        invariant
            ps == pair_views(pairs@),
            st == stamp_views(disk.stamps@),
            out@.len() == i,
            forall|k: int| 0 <= k < i ==> out@[k] == copy_steps_spec(ps, st)[k],
    {
        let d = stamp_lookup(disk, pairs[i].0.as_str());
        let step = match stamp_lookup(disk, pairs[i].1.as_str()) {
            None => CopyStep::Missing,
            Some(s) => if needs_copy(&d, &Some(s)) {
                CopyStep::Copy(s.len)
            } else {
                CopyStep::Skip
            },
        };
        out.push(step);
    }
    proof {
        assert(out@ =~= copy_steps_spec(ps, st));
    }
    out
}

/// `(files, bytes)` that carrying out `steps` copies.
pub open spec fn copies_of(steps: Seq<CopyStep>) -> (nat, nat)
    decreases steps.len(),
{
    if steps.len() == 0 {
        (0, 0)
    } else {
        let prev = copies_of(steps.drop_last());
        match steps.last() {
            CopyStep::Copy(b) => ((prev.0 + 1) as nat, (prev.1 + b) as nat),
            _ => prev,
        }
    }
}

/// A build copies exactly what the estimate announced: the files its steps
/// copy, and their bytes, are the estimate's.
pub proof fn lemma_build_copies_the_estimate(pairs: Seq<(Seq<char>, Seq<char>)>, st: Seq<(Seq<char>, FileStamp)>)
    ensures
        copies_of(copy_steps_spec(pairs, st)) == estimate_spec(pairs, st),
    decreases pairs.len(),
{
    if pairs.len() > 0 {
        let p = pairs.drop_last();
        lemma_build_copies_the_estimate(p, st);
        assert(copy_steps_spec(pairs, st).drop_last() =~= copy_steps_spec(p, st));
    }
}

/// `st2` is the file system after carrying out the build of `pairs` planned
/// over `st`: sources unchanged, every copied destination now a copy of its
/// source, every skipped destination as it was.
pub open spec fn carried_out(
    pairs: Seq<(Seq<char>, Seq<char>)>,
    st: Seq<(Seq<char>, FileStamp)>,
    st2: Seq<(Seq<char>, FileStamp)>,
) -> bool {
    forall|i: int|
        0 <= i < pairs.len() ==> {
            &&& stamp_at(st2, (#[trigger] pairs[i]).1) == stamp_at(st, pairs[i].1)
            &&& match copy_step_spec(stamp_at(st, pairs[i].0), stamp_at(st, pairs[i].1)) {
                CopyStep::Copy(_) => match (stamp_at(st2, pairs[i].0), stamp_at(st, pairs[i].1)) {
                    (Some(d), Some(s)) => written_from(d, s),
                    _ => false,
                },
                CopyStep::Skip => stamp_at(st2, pairs[i].0) == stamp_at(st, pairs[i].0),
                CopyStep::Missing => true,
            }
        }
}

/// A second build right after a completed one copies nothing: the tree is in
/// step with its sources, the estimate is zero, and no step is a copy.
pub proof fn lemma_second_build_copies_nothing(
    pairs: Seq<(Seq<char>, Seq<char>)>,
    st: Seq<(Seq<char>, FileStamp)>,
    st2: Seq<(Seq<char>, FileStamp)>,
)
    requires
        carried_out(pairs, st, st2),
    ensures
        tree_in_step(pairs, st2),
        estimate_spec(pairs, st2) == (0nat, 0nat),
        forall|i: int| 0 <= i < pairs.len() ==> !(copy_steps_spec(pairs, st2)[i] is Copy),
{
    assert forall|i: int| 0 <= i < pairs.len() implies match stamp_at(st2, (#[trigger] pairs[i]).1) {
        None => true,
        Some(s) => match stamp_at(st2, pairs[i].0) {
            None => false,
            Some(d) => written_from(d, s),
        },
    } by {
        assert(stamp_at(st2, pairs[i].1) == stamp_at(st, pairs[i].1));
    }
    lemma_in_step_tree_copies_nothing(pairs, st2);
    assert forall|i: int| 0 <= i < pairs.len() implies !(copy_steps_spec(pairs, st2)[i] is Copy) by {
        assert(stamp_at(st2, pairs[i].1) == stamp_at(st, pairs[i].1));
    }
}

/// How many of `steps` leave a current destination alone.
pub open spec fn skips_of(steps: Seq<CopyStep>) -> nat
    decreases steps.len(),
{
    if steps.len() == 0 {
        0
    } else {
        skips_of(steps.drop_last()) + if steps.last() is Skip {
            1nat
        } else {
            0nat
        }
    }
}

/// The destinations of `pairs`, in order.
pub open spec fn dests_of(pairs: Seq<(Seq<char>, Seq<char>)>) -> Seq<Seq<char>> {
    pairs.map_values(|p: (Seq<char>, Seq<char>)| p.0)
}

proof fn lemma_copies_and_skips_cover(steps: Seq<CopyStep>)
    requires
        forall|i: int| 0 <= i < steps.len() ==> !(#[trigger] steps[i] is Missing),
    ensures
        copies_of(steps).0 + skips_of(steps) == steps.len(),
    decreases steps.len(),
{
    if steps.len() > 0 {
        let p = steps.drop_last();
        assert forall|i: int| 0 <= i < p.len() implies !(#[trigger] p[i] is Missing) by {
            assert(p[i] == steps[i]);
        }
        lemma_copies_and_skips_cover(p);
        assert(!(steps[steps.len() - 1] is Missing));
    }
}

/// Re-building a tree right after a build that met no error changes nothing:
/// every planned copy is counted as skipped (as many as the first build
/// copied and skipped together), nothing is copied, and reconciling the tree
/// removes none of what the first build left in it (its copies, its marker
/// and README, and directories).
pub proof fn lemma_rebuild_changes_nothing(
    root: Seq<char>,
    pairs: Seq<(Seq<char>, Seq<char>)>,
    st: Seq<(Seq<char>, FileStamp)>,
    st2: Seq<(Seq<char>, FileStamp)>,
    entries: Seq<(Seq<char>, bool)>,
)
    requires
        carried_out(pairs, st, st2),
        forall|i: int| 0 <= i < pairs.len() ==> stamp_at(st, (#[trigger] pairs[i]).1) is Some,
        forall|k: int|
            0 <= k < entries.len() ==> (#[trigger] entries[k]).1 || is_root_meta(root, entries[k].0)
                || expected_spec(dests_of(pairs), entries[k].0),
    ensures
        forall|i: int| 0 <= i < pairs.len() ==> copy_steps_spec(pairs, st2)[i] == CopyStep::Skip,
        copies_of(copy_steps_spec(pairs, st2)) == (0nat, 0nat),
        skips_of(copy_steps_spec(pairs, st2)) == pairs.len(),
        skips_of(copy_steps_spec(pairs, st2)) == copies_of(copy_steps_spec(pairs, st)).0 + skips_of(
            copy_steps_spec(pairs, st),
        ),
        forall|k: int|
            0 <= k < entries.len() ==> prune_spec(root, (#[trigger] entries[k]).0, entries[k].1, dests_of(pairs))
                != SweepAction::Remove,
{
    lemma_second_build_copies_nothing(pairs, st, st2);
    let s1 = copy_steps_spec(pairs, st);
    let s2 = copy_steps_spec(pairs, st2);
    assert forall|i: int| 0 <= i < pairs.len() implies s2[i] == CopyStep::Skip by {
        assert(stamp_at(st2, pairs[i].1) == stamp_at(st, pairs[i].1));
        assert(!(s2[i] is Copy));
    }
    assert forall|i: int| 0 <= i < s1.len() implies !(#[trigger] s1[i] is Missing) by {
        assert(stamp_at(st, pairs[i].1) is Some);
    }
    assert forall|i: int| 0 <= i < s2.len() implies !(#[trigger] s2[i] is Missing) by {
        assert(s2[i] == CopyStep::Skip);
    }
    lemma_copies_and_skips_cover(s1);
    lemma_copies_and_skips_cover(s2);
    lemma_build_copies_the_estimate(pairs, st2);
}

/// `path` is one of the files a tree keeps at its root: the marker or the
/// README.
pub open spec fn is_root_meta(root: Seq<char>, path: Seq<char>) -> bool {
    components_spec(path) == components_spec(root).push(".photopipe-tree"@) || components_spec(path)
        == components_spec(root).push("README.txt"@)
}

/// Reconciling a review or keepers tree rooted at `root`: its marker and
/// README are kept, directories are pruned into, planned copies are kept,
/// and every other file is removed.
pub open spec fn prune_spec(root: Seq<char>, path: Seq<char>, is_dir: bool, expected: Seq<Seq<char>>) -> SweepAction {
    if is_root_meta(root, path) {
        SweepAction::Keep
    } else if is_dir {
        SweepAction::Descend
    } else if expected_spec(expected, path) {
        SweepAction::Keep
    } else {
        SweepAction::Remove
    }
}

fn root_child(root: &str, name: &str) -> (r: Vec<Vec<char>>)
    ensures
        crate::path::vviews(r@) == components_spec(root@).push(name@),
{
    let mut c = components(root);
    c.push(crate::text::chars_of(name));
    proof {
        assert(crate::path::vviews(c@) =~= components_spec(root@).push(name@));
    }
    c
}

/// What reconciling the tree at `root` does with the entry at `path`, given
/// the destinations this build planned.
pub fn prune_action(root: &str, path: &str, is_dir: bool, expected: &[String]) -> (r: SweepAction)
    ensures
        r == prune_spec(root@, path@, is_dir, views(expected@)),
{
    let c = components(path);
    let marker = root_child(root, ".photopipe-tree");
    let readme = root_child(root, "README.txt");
    proof {
        reveal_strlit(".photopipe-tree");
        reveal_strlit("README.txt");
    }
    if components_eq(&c, &marker) || components_eq(&c, &readme) {
        SweepAction::Keep
    } else if is_dir {
        SweepAction::Descend
    } else if is_expected(expected, path) {
        SweepAction::Keep
    } else {
        SweepAction::Remove
    }
}

/// Reconciling a tree removes exactly the files nobody vouches for: a file
/// that is neither the root marker nor the README and whose path is no
/// planned destination is removed, wherever it lies in the tree; a directory
/// other than those is pruned into; everything else is kept.
pub proof fn lemma_prune_removes_every_unplanned_file(
    root: Seq<char>,
    path: Seq<char>,
    is_dir: bool,
    expected: Seq<Seq<char>>,
)
    ensures
        (!is_dir && !is_root_meta(root, path) && forall|i: int|
            0 <= i < expected.len() ==> components_spec(#[trigger] expected[i]) != components_spec(path))
            ==> prune_spec(root, path, is_dir, expected) == SweepAction::Remove,
        (is_dir && !is_root_meta(root, path)) ==> prune_spec(root, path, is_dir, expected) == SweepAction::Descend,
        (is_root_meta(root, path) || (!is_dir && exists|i: int|
            0 <= i < expected.len() && components_spec(#[trigger] expected[i]) == components_spec(path)))
            ==> prune_spec(root, path, is_dir, expected) == SweepAction::Keep,
{
}

/// Reconciling a tree never removes its marker, its README, a directory, or a
/// copy this build planned.
pub proof fn lemma_prune_spares_meta_and_planned(root: Seq<char>, path: Seq<char>, is_dir: bool, expected: Seq<Seq<char>>)
    ensures
        prune_spec(root, path, is_dir, expected) == SweepAction::Remove ==> {
            &&& !is_root_meta(root, path)
            &&& !is_dir
            &&& forall|i: int| 0 <= i < expected.len() ==> components_spec(#[trigger] expected[i]) != components_spec(path)
        },
{
}

/// Estimate the copy a review-tree build into `output_root` would perform, from
/// the catalog's flagged entries and duplicate groups and what the file system
/// reports.
pub fn estimate_review_copy(
    entries: &[ReviewEntry],
    groups: &[ReviewGroup],
    output_root: &str,
    categories: &[String],
    disk: &DiskView,
) -> (r: CopyEstimate)
    requires
        plan_spec(entries@, groups@, views(categories@)).len() < 0xffff_fff0,
        estimate_spec(
            resolve_state(output_root@, plan_spec(entries@, groups@, views(categories@))).0,
            stamp_views(disk.stamps@),
        ).1 <= u64::MAX,
    ensures
        (r.files as nat, r.bytes as nat) == estimate_spec(
            resolve_state(output_root@, plan_spec(entries@, groups@, views(categories@))).0,
            stamp_views(disk.stamps@),
        ),
{
    let planned = plan_links(entries, groups, categories);
    let pairs = resolve_dests(output_root, planned.as_slice());
    estimate_copy(pairs.as_slice(), disk)
}

/// Estimate the copy a keepers-tree build into `output_root` would perform.
pub fn estimate_keepers_copy(keepers: Vec<KeeperFile>, output_root: &str, disk: &DiskView) -> (r: CopyEstimate)
    requires
        keepers@.len() < 0xffff_fff0,
        estimate_spec(resolve_state(output_root@, keepers_spec(keepers@)).0, stamp_views(disk.stamps@)).1
            <= u64::MAX,
    ensures
        (r.files as nat, r.bytes as nat) == estimate_spec(
            resolve_state(output_root@, keepers_spec(keepers@)).0,
            stamp_views(disk.stamps@),
        ),
{
    let planned = keepers_plan(keepers);
    let pairs = resolve_dests(output_root, planned.as_slice());
    estimate_copy(pairs.as_slice(), disk)
}

/// Writing into `output_root` is allowed when it does not exist, is a
/// photopipe-managed tree, or is an empty directory; anything else might hold
/// real photos and is refused.
pub fn safe_to_write(present: bool, managed: bool, empty: bool) -> (r: bool)
    ensures
        r == (!present || managed || empty),
{
    !present || managed || empty
}

/// What removing a tree for `--regenerate` does.
pub enum TreeRemoval {
    /// Nothing exists there; nothing to remove.
    Absent,
    /// A managed tree or an empty directory: remove it.
    Remove,
    /// A non-empty directory without the marker: refuse.
    Refuse,
}

pub fn tree_removal(present: bool, managed: bool, empty: bool) -> (r: TreeRemoval)
    ensures
        !present ==> r is Absent,
        present && !managed && !empty ==> r is Refuse,
        present && (managed || empty) ==> r is Remove,
{
    if !present {
        TreeRemoval::Absent
    } else if !managed && !empty {
        TreeRemoval::Refuse
    } else {
        TreeRemoval::Remove
    }
}

} // verus!
